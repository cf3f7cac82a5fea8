//! Weighted max-min fairness in whole units.
use vstd::arithmetic::div_mod::lemma_fundamental_div_mod;
use vstd::prelude::*;

verus! {

// ------------------------------------------------------------ the split

/// The weight of a claim `(weight, demand)`. A weight of zero counts as one.
pub open spec fn weight_of(claim: (u64, u64)) -> nat {
    if claim.0 == 0 {
        1
    } else {
        claim.0 as nat
    }
}

/// What it takes, times `w`, to pour over the first `k` claims up to the level `d / w` per unit
/// of weight: each takes its demand, or its weight's part of the level where that is less.
pub open spec fn pour(claims: Seq<(u64, u64)>, w: nat, d: nat, k: nat) -> nat
    decreases k,
{
    if k == 0 {
        0
    } else {
        let c = claims[k - 1];
        let full = c.1 as nat * w;
        let part = d * weight_of(c);
        pour(claims, w, d, (k - 1) as nat) + if full <= part {
            full
        } else {
            part
        }
    }
}

/// Claim `i` is met in full: pouring until its demand is covered takes no more than `total`.
pub open spec fn met(total: nat, claims: Seq<(u64, u64)>, i: int) -> bool {
    pour(claims, weight_of(claims[i]), claims[i].1 as nat, claims.len()) <= total * weight_of(
        claims[i],
    )
}

/// Which claims are not met in full.
pub open spec fn asking(total: nat, claims: Seq<(u64, u64)>) -> Seq<bool> {
    Seq::new(claims.len(), |i: int| !met(total, claims, i))
}

/// The weight of those among the first `k` claims that are still asking.
pub open spec fn asking_weight(claims: Seq<(u64, u64)>, a: Seq<bool>, k: nat) -> nat
    decreases k,
{
    if k == 0 {
        0
    } else {
        asking_weight(claims, a, (k - 1) as nat) + if a[k - 1] {
            weight_of(claims[k - 1])
        } else {
            0
        }
    }
}

/// What those among the first `k` claims that are met take.
pub open spec fn met_demand(claims: Seq<(u64, u64)>, a: Seq<bool>, k: nat) -> nat
    decreases k,
{
    if k == 0 {
        0
    } else {
        met_demand(claims, a, (k - 1) as nat) + if a[k - 1] {
            0
        } else {
            claims[k - 1].1 as nat
        }
    }
}

/// The whole units that the first `k` claims, where asking, get of `left` by weight.
pub open spec fn by_weight(
    claims: Seq<(u64, u64)>,
    a: Seq<bool>,
    left: nat,
    weight: nat,
    k: nat,
) -> nat
    decreases k,
{
    if k == 0 {
        0
    } else {
        by_weight(claims, a, left, weight, (k - 1) as nat) + if a[k - 1] {
            left * weight_of(claims[k - 1]) / weight
        } else {
            0
        }
    }
}

/// How many of the first `k` claims are still asking.
pub open spec fn asking_count(a: Seq<bool>, k: nat) -> nat
    decreases k,
{
    if k == 0 {
        0
    } else {
        asking_count(a, (k - 1) as nat) + if a[k - 1] {
            1nat
        } else {
            0
        }
    }
}

/// What claim `i` gets, when `a` are asking for `left`: its demand if it is met; else its part
/// by weight, and one of the units that whole parts leave over if it is early enough.
pub open spec fn portion(claims: Seq<(u64, u64)>, a: Seq<bool>, left: nat, i: int) -> nat {
    let n = claims.len();
    let weight = asking_weight(claims, a, n);
    let rest = left - by_weight(claims, a, left, weight, n);
    if !a[i] {
        claims[i].1 as nat
    } else {
        left * weight_of(claims[i]) / weight + if asking_count(a, i as nat) < rest {
            1nat
        } else {
            0
        }
    }
}

/// What is left for the claims that are still asking.
pub open spec fn left_for(total: nat, claims: Seq<(u64, u64)>, a: Seq<bool>) -> nat {
    (total - met_demand(claims, a, claims.len())) as nat
}

/// The split of `total` among claimants of `(weight, demand)`: a common level per unit of
/// weight rises until the total is spent. A claim below its level gets its demand; the rest is
/// shared by weight among those still asking, a remainder going to the earliest of them.
pub open spec fn fair_split(total: nat, claims: Seq<(u64, u64)>) -> Seq<nat> {
    let a = asking(total, claims);
    Seq::new(claims.len(), |i: int| portion(claims, a, left_for(total, claims, a), i))
}

// ------------------------------------------------------------ sums

proof fn lemma_weight_bound(claims: Seq<(u64, u64)>, a: Seq<bool>, k: nat)
    requires
        k <= claims.len(),
    ensures
        asking_weight(claims, a, k) <= k * 0xffff_ffff_ffff_ffff,
    decreases k,
{
    if k > 0 {
        lemma_weight_bound(claims, a, (k - 1) as nat);
        assert(k * 0xffff_ffff_ffff_ffff == (k - 1) * 0xffff_ffff_ffff_ffff
            + 0xffff_ffff_ffff_ffff) by (nonlinear_arith);
    }
}

/// The parts by weight of the first `k` claims are at most their weight's part of what is left.
proof fn lemma_by_weight_bound(
    claims: Seq<(u64, u64)>,
    a: Seq<bool>,
    left: nat,
    weight: nat,
    k: nat,
)
    requires
        weight > 0,
    ensures
        by_weight(claims, a, left, weight, k) * weight <= left * asking_weight(claims, a, k),
        left * asking_weight(claims, a, k) <= (by_weight(claims, a, left, weight, k)
            + asking_count(a, k)) * weight,
        asking_count(a, k) > 0 ==> left * asking_weight(claims, a, k) < (by_weight(
            claims,
            a,
            left,
            weight,
            k,
        ) + asking_count(a, k)) * weight,
    decreases k,
{
    if k > 0 {
        let j = (k - 1) as nat;
        lemma_by_weight_bound(claims, a, left, weight, j);
        if a[k - 1] {
            let w = weight_of(claims[k - 1]);
            let q = left * w / weight;
            let b = by_weight(claims, a, left, weight, j);
            let s = asking_weight(claims, a, j);
            let c = asking_count(a, j);
            lemma_fundamental_div_mod(
                (left * w) as int,
                weight as int,
            );
            assert(q * weight <= left * w < (q + 1) * weight) by (nonlinear_arith)
                requires
                    left * w == weight * q + (left * w) % weight,
                    0 <= (left * w) % weight < weight,
            ;
            assert((b + q) * weight == b * weight + q * weight) by (nonlinear_arith);
            assert((b + q + c + 1) * weight == (b + c) * weight + (q + 1) * weight)
                by (nonlinear_arith);
            assert(left * (s + w) == left * s + left * w) by (nonlinear_arith);
        }
    } else {
        assert(0 * weight <= left * 0) by (nonlinear_arith);
        assert(left * 0 <= 0 * weight) by (nonlinear_arith);
    }
}

/// A claim's part by weight is at most what is left.
proof fn lemma_part_bound(claims: Seq<(u64, u64)>, a: Seq<bool>, left: nat, i: int, k: nat)
    requires
        0 <= i < k <= claims.len(),
        a[i],
    ensures
        weight_of(claims[i]) <= asking_weight(claims, a, k),
        left * weight_of(claims[i]) / asking_weight(claims, a, k) <= left,
    decreases k,
{
    lemma_weight_part(claims, a, i, k);
    let w = weight_of(claims[i]);
    let s = asking_weight(claims, a, k);
    assert(left * w / s <= left) by (nonlinear_arith)
        requires
            0 < w <= s,
    ;
}

proof fn lemma_weight_part(claims: Seq<(u64, u64)>, a: Seq<bool>, i: int, k: nat)
    requires
        0 <= i < k <= claims.len(),
        a[i],
    ensures
        0 < weight_of(claims[i]) <= asking_weight(claims, a, k),
    decreases k,
{
    if i < k - 1 {
        lemma_weight_part(claims, a, i, (k - 1) as nat);
    }
}

proof fn lemma_no_weight(claims: Seq<(u64, u64)>, a: Seq<bool>, k: nat)
    requires
        k <= claims.len(),
        asking_weight(claims, a, k) == 0,
    ensures
        forall|i: int| 0 <= i < k ==> !#[trigger] a[i],
    decreases k,
{
    assert forall|i: int| 0 <= i < k implies !#[trigger] a[i] by {
        if a[i] {
            lemma_weight_part(claims, a, i, k);
        }
    }
}

// ------------------------------------------------------------ rounds of the fill

/// What holds between two rounds: the demand of everyone who stopped asking is at or below the
/// level that is left for the others.
spec fn poured(total: nat, claims: Seq<(u64, u64)>, a: Seq<bool>, left: nat) -> bool {
    let n = claims.len();
    &&& a.len() == n
    &&& left + met_demand(claims, a, n) == total
    &&& forall|j: int|
        0 <= j < n && !#[trigger] a[j] ==> claims[j].1 as nat * asking_weight(claims, a, n) <= left
            * weight_of(claims[j])
}

/// Pouring up to `d / w` takes at most the demands of the met and the level of the others.
proof fn lemma_pour_above(claims: Seq<(u64, u64)>, a: Seq<bool>, w: nat, d: nat, k: nat)
    requires
        k <= claims.len(),
    ensures
        pour(claims, w, d, k) <= w * met_demand(claims, a, k) + d * asking_weight(claims, a, k),
    decreases k,
{
    if k > 0 {
        let j = (k - 1) as nat;
        lemma_pour_above(claims, a, w, d, j);
        let c = claims[k - 1];
        let m = met_demand(claims, a, j);
        let s = asking_weight(claims, a, j);
        let wc = weight_of(c);
        let dc = c.1 as nat;
        assert(w * (m + dc) == w * m + dc * w) by (nonlinear_arith);
        assert(d * (s + wc) == d * s + d * wc) by (nonlinear_arith);
        assert(w * (m + 0) == w * m && d * (s + 0) == d * s);
    }
}

/// Pouring up to the demand of someone above the level takes the demands of the met and more
/// than the level's part of the others.
proof fn lemma_pour_below(
    claims: Seq<(u64, u64)>,
    a: Seq<bool>,
    left: nat,
    weight: nat,
    w: nat,
    d: nat,
    k: nat,
)
    requires
        k <= claims.len(),
        w > 0,
        weight > 0,
        d * weight > left * w,
        forall|j: int|
            0 <= j < k ==> if #[trigger] a[j] {
                claims[j].1 as nat * weight > left * weight_of(claims[j])
            } else {
                claims[j].1 as nat * weight <= left * weight_of(claims[j])
            },
    ensures
        pour(claims, w, d, k) * weight >= w * met_demand(claims, a, k) * weight + left * w
            * asking_weight(claims, a, k),
        asking_weight(claims, a, k) > 0 ==> pour(claims, w, d, k) * weight > w * met_demand(
            claims,
            a,
            k,
        ) * weight + left * w * asking_weight(claims, a, k),
    decreases k,
{
    if k > 0 {
        let j = (k - 1) as nat;
        lemma_pour_below(claims, a, left, weight, w, d, j);
        let c = claims[k - 1];
        let p = pour(claims, w, d, j);
        let m = met_demand(claims, a, j);
        let s = asking_weight(claims, a, j);
        let wc = weight_of(c);
        let dc = c.1 as nat;
        let full = dc * w;
        let part = d * wc;
        let step = if full <= part {
            full
        } else {
            part
        };
        assert((p + step) * weight == p * weight + step * weight) by (nonlinear_arith);
        if a[k - 1] {
            assert(full * weight > left * w * wc) by (nonlinear_arith)
                requires
                    full == dc * w,
                    dc * weight > left * wc,
                    w > 0,
            ;
            assert(part * weight > left * w * wc) by (nonlinear_arith)
                requires
                    part == d * wc,
                    d * weight > left * w,
                    wc > 0,
            ;
            assert(left * w * (s + wc) == left * w * s + left * w * wc) by (nonlinear_arith);
            assert(w * (m + 0) * weight == w * m * weight);
        } else {
            assert(full <= part) by (nonlinear_arith)
                requires
                    full == dc * w,
                    part == d * wc,
                    dc * weight <= left * wc,
                    d * weight > left * w,
                    weight > 0,
                    wc > 0,
                    w > 0,
            ;
            assert(w * (m + dc) * weight == w * m * weight + full * weight) by (nonlinear_arith)
                requires
                    full == dc * w,
            ;
            assert(left * w * (s + 0) == left * w * s);
        }
    } else {
        assert(w * 0 * weight + left * w * 0 == 0) by (nonlinear_arith);
        assert(0 * weight == 0);
    }
}

/// Someone at or below the level is met.
proof fn lemma_round_met(total: nat, claims: Seq<(u64, u64)>, a: Seq<bool>, left: nat, i: int)
    requires
        poured(total, claims, a, left),
        0 <= i < claims.len(),
        claims[i].1 as nat * asking_weight(claims, a, claims.len()) <= left * weight_of(claims[i]),
    ensures
        met(total, claims, i),
{
    let n = claims.len();
    let w = weight_of(claims[i]);
    let d = claims[i].1 as nat;
    lemma_pour_above(claims, a, w, d, n);
    let m = met_demand(claims, a, n);
    assert(w * m + left * w == total * w) by (nonlinear_arith)
        requires
            left + m == total,
    ;
}

/// Once everyone still asking is above the level, they are exactly those not met.
proof fn lemma_round_stuck(total: nat, claims: Seq<(u64, u64)>, a: Seq<bool>, left: nat)
    requires
        poured(total, claims, a, left),
        asking_weight(claims, a, claims.len()) > 0,
        forall|i: int|
            0 <= i < claims.len() && #[trigger] a[i] ==> claims[i].1 as nat * asking_weight(
                claims,
                a,
                claims.len(),
            ) > left * weight_of(claims[i]),
    ensures
        a == asking(total, claims),
        left == left_for(total, claims, a),
{
    let n = claims.len();
    let weight = asking_weight(claims, a, n);
    assert forall|i: int| 0 <= i < n implies a[i] == !met(total, claims, i) by {
        if a[i] {
            let w = weight_of(claims[i]);
            let d = claims[i].1 as nat;
            lemma_pour_below(claims, a, left, weight, w, d, n);
            let m = met_demand(claims, a, n);
            let p = pour(claims, w, d, n);
            assert(p > total * w) by (nonlinear_arith)
                requires
                    p * weight > w * m * weight + left * w * weight,
                    left + m == total,
                    weight > 0,
            ;
        } else {
            lemma_round_met(total, claims, a, left, i);
        }
    }
    assert(a =~= asking(total, claims));
}

/// Once nobody is asking, everyone is met.
proof fn lemma_round_done(total: nat, claims: Seq<(u64, u64)>, a: Seq<bool>, left: nat)
    requires
        poured(total, claims, a, left),
        asking_weight(claims, a, claims.len()) == 0,
    ensures
        a == asking(total, claims),
        left == left_for(total, claims, a),
{
    lemma_no_weight(claims, a, claims.len());
    assert forall|i: int| 0 <= i < claims.len() implies met(total, claims, i) by {
        assert(claims[i].1 as nat * 0 == 0);
        lemma_round_met(total, claims, a, left, i);
    }
    assert(a =~= asking(total, claims));
}

proof fn lemma_nothing_met(claims: Seq<(u64, u64)>, a: Seq<bool>, k: nat)
    requires
        k <= claims.len(),
        forall|j: int| 0 <= j < k && !#[trigger] a[j] ==> claims[j].1 == 0,
    ensures
        met_demand(claims, a, k) == 0,
    decreases k,
{
    if k > 0 {
        lemma_nothing_met(claims, a, (k - 1) as nat);
    }
}

proof fn lemma_pour_nothing(claims: Seq<(u64, u64)>, w: nat, i: int, d: nat, k: nat)
    requires
        0 <= i < claims.len(),
        d == claims[i].1 as nat,
        w > 0,
        k <= claims.len(),
    ensures
        d == 0 ==> pour(claims, w, d, k) == 0,
        d > 0 && i < k ==> pour(claims, w, d, k) > 0,
    decreases k,
{
    if k > 0 {
        lemma_pour_nothing(claims, w, i, d, (k - 1) as nat);
        let wc = weight_of(claims[k - 1]);
        assert(0 * wc == 0);
        if i == k - 1 && d > 0 {
            assert(d * w > 0 && d * wc > 0) by (nonlinear_arith)
                requires
                    d > 0,
                    w > 0,
                    wc > 0,
            ;
        }
    }
}

/// With nothing to split, everyone gets nothing.
proof fn lemma_split_nothing(claims: Seq<(u64, u64)>)
    ensures
        forall|i: int| 0 <= i < claims.len() ==> #[trigger] fair_split(0, claims)[i] == 0,
{
    let a = asking(0, claims);
    let n = claims.len();
    assert forall|i: int| 0 <= i < n implies a[i] == (claims[i].1 != 0) by {
        let w = weight_of(claims[i]);
        lemma_pour_nothing(claims, w, i, claims[i].1 as nat, n);
        assert(0 * w == 0);
    }
    lemma_nothing_met(claims, a, n);
    assert forall|i: int| 0 <= i < n implies #[trigger] fair_split(0, claims)[i] == 0 by {
        if a[i] {
            let weight = asking_weight(claims, a, n);
            lemma_weight_part(claims, a, i, n);
            let w = weight_of(claims[i]);
            assert(0 * w / weight == 0) by (nonlinear_arith)
                requires
                    weight > 0,
            ;
        }
    }
}

proof fn lemma_all_asking(claims: Seq<(u64, u64)>, a: Seq<bool>, k: nat)
    requires
        k <= claims.len(),
        forall|j: int| 0 <= j < k ==> #[trigger] a[j],
    ensures
        met_demand(claims, a, k) == 0,
    decreases k,
{
    if k > 0 {
        lemma_all_asking(claims, a, (k - 1) as nat);
    }
}

/// One claim stops asking.
proof fn lemma_stop(claims: Seq<(u64, u64)>, a: Seq<bool>, i: int, k: nat)
    requires
        0 <= i < claims.len() == a.len(),
        a[i],
        k <= claims.len(),
    ensures
        asking_weight(claims, a, k) == asking_weight(claims, a.update(i, false), k) + (if i < k {
            weight_of(claims[i])
        } else {
            0
        }),
        met_demand(claims, a.update(i, false), k) == met_demand(claims, a, k) + (if i < k {
            claims[i].1 as nat
        } else {
            0
        }),
        asking_count(a, k) == asking_count(a.update(i, false), k) + (if i < k {
            1nat
        } else {
            0
        }),
    decreases k,
{
    if k > 0 {
        lemma_stop(claims, a, i, (k - 1) as nat);
    }
}

// ------------------------------------------------------------ the fill

/// The weight of a claim.
fn claim_weight(claim: &(u64, u64)) -> (w: u64)
    ensures
        w == weight_of(*claim),
{
    if claim.0 == 0 {
        1
    } else {
        claim.0
    }
}

/// The weight of the claims still asking.
fn weigh(claims: &[(u64, u64)], a: &Vec<bool>) -> (weight: u128)
    requires
        a@.len() == claims@.len(),
    ensures
        weight == asking_weight(claims@, a@, claims@.len()),
{
    let mut weight: u128 = 0;
    for i in 0..claims.len()
        invariant
            a@.len() == claims@.len(),
            weight == asking_weight(claims@, a@, i as nat),
    {
        proof {
            lemma_weight_bound(claims@, a@, (i + 1) as nat);
            assert((i + 1) * 0xffff_ffff_ffff_ffff <= 0xffff_ffff_ffff_ffff
                * 0xffff_ffff_ffff_ffff) by (nonlinear_arith)
                requires
                    i + 1 <= 0xffff_ffff_ffff_ffff,
            ;
        }
        if a[i] {
            weight = weight + claim_weight(&claims[i]) as u128;
        }
    }
    weight
}

/// Whether a demand is at or below the level that `left` makes for `weight`.
fn under_level(demand: u64, w: u64, left: u64, weight: u128) -> (r: bool)
    ensures
        r == (demand as nat * weight as nat <= left as nat * w as nat),
{
    proof {
        assert(left as nat * w as nat <= 0xffff_ffff_ffff_ffff * 0xffff_ffff_ffff_ffff)
            by (nonlinear_arith)
            requires
                left <= 0xffff_ffff_ffff_ffff,
                w <= 0xffff_ffff_ffff_ffff,
        ;
    }
    let level: u128 = left as u128 * w as u128;
    match weight.checked_mul(demand as u128) {
        Some(x) => {
            assert(demand as nat * weight as nat == weight * demand) by (nonlinear_arith);
            x <= level
        },
        None => {
            assert(demand as nat * weight as nat == weight * demand) by (nonlinear_arith);
            false
        },
    }
}

/// Meet everyone at or below the level, which rises for the others.
fn pour_round(
    claims: &[(u64, u64)],
    a: &mut Vec<bool>,
    out: &mut Vec<u64>,
    left: u64,
    weight: u128,
    Ghost(total): Ghost<nat>,
) -> (r: (u64, bool))
    requires
        poured(total, claims@, old(a)@, left as nat),
        old(out)@.len() == claims@.len(),
        weight == asking_weight(claims@, old(a)@, claims@.len()),
        weight > 0,
        forall|j: int|
            0 <= j < claims@.len() ==> #[trigger] old(out)@[j] == if old(a)@[j] {
                0
            } else {
                claims@[j].1
            },
    ensures
        poured(total, claims@, final(a)@, r.0 as nat),
        final(out)@.len() == claims@.len(),
        forall|j: int|
            0 <= j < claims@.len() ==> #[trigger] final(out)@[j] == if final(a)@[j] {
                0
            } else {
                claims@[j].1
            },
        r.1 ==> asking_count(final(a)@, claims@.len()) < asking_count(old(a)@, claims@.len()),
        !r.1 ==> final(a)@ == old(a)@ && r.0 == left && forall|i: int|
            0 <= i < claims@.len() && #[trigger] final(a)@[i] ==> claims@[i].1 as nat * weight
                > left * weight_of(claims@[i]),
{
    let n = claims.len();
    let mut rest: u64 = left;
    let mut moved: bool = false;
    let ghost a0 = a@;
    let ghost mut spent: nat = 0;
    let ghost mut gone: nat = 0;
    for i in 0..n
        invariant
            n == claims@.len(),
            a@.len() == n,
            a0.len() == n,
            out@.len() == n,
            poured(total, claims@, a0, left as nat),
            weight == asking_weight(claims@, a0, n as nat),
            weight > 0,
            spent + rest == left,
            gone + asking_weight(claims@, a@, n as nat) == weight,
            met_demand(claims@, a@, n as nat) == met_demand(claims@, a0, n as nat) + spent,
            spent * weight <= left * gone,
            asking_count(a@, n as nat) <= asking_count(a0, n as nat),
            moved ==> asking_count(a@, n as nat) < asking_count(a0, n as nat),
            !moved ==> a@ == a0 && rest == left,
            forall|j: int|
                0 <= j < n ==> #[trigger] a@[j] == (a0[j] && (j >= i || claims@[j].1 as nat * weight
                    > left * weight_of(claims@[j]))),
            forall|j: int|
                0 <= j < n ==> #[trigger] out@[j] == if a@[j] {
                    0
                } else {
                    claims@[j].1
                },
    {
        if a[i] {
            let w = claim_weight(&claims[i]);
            let d = claims[i].1;
            if under_level(d, w, left, weight) {
                proof {
                    lemma_stop(claims@, a@, i as int, n as nat);
                    let g = gone;
                    let s = spent;
                    assert((s + d) * weight <= left * (g + w)) by (nonlinear_arith)
                        requires
                            s * weight <= left * g,
                            d as nat * weight as nat <= left as nat * w as nat,
                    ;
                    assert(s + d <= left) by (nonlinear_arith)
                        requires
                            (s + d) * weight <= left * (g + w),
                            g + w <= weight,
                            weight > 0,
                    ;
                    spent = s + d as nat;
                    gone = g + w as nat;
                }
                a[i] = false;
                out[i] = d;
                rest = rest - d;
                moved = true;
            }
        }
    }
    proof {
        let m = n as nat;
        let w1 = asking_weight(claims@, a@, m);
        assert(rest * weight >= left * w1) by (nonlinear_arith)
            requires
                spent + rest == left,
                gone + w1 == weight,
                spent * weight <= left * gone,
        ;
        assert forall|j: int| 0 <= j < m && !#[trigger] a@[j] implies claims@[j].1 as nat * w1
            <= rest * weight_of(claims@[j]) by {
            let d = claims@[j].1 as nat;
            let w = weight_of(claims@[j]);
            assert(d * weight <= left * w) by {
                if a0[j] {
                }
            }
            assert(d * w1 <= rest * w) by (nonlinear_arith)
                requires
                    d * weight <= left * w,
                    rest * weight >= left * w1,
                    weight > 0,
            ;
        }
    }
    (rest, moved)
}

/// Share what is left by weight among those still asking, the remainder to the earliest.
fn share_rest(claims: &[(u64, u64)], a: &Vec<bool>, out: &mut Vec<u64>, left: u64, weight: u128)
    requires
        a@.len() == claims@.len(),
        old(out)@.len() == claims@.len(),
        weight == asking_weight(claims@, a@, claims@.len()),
        weight > 0,
        forall|j: int|
            0 <= j < claims@.len() && !a@[j] ==> #[trigger] old(out)@[j] == claims@[j].1,
    ensures
        final(out)@.len() == claims@.len(),
        forall|j: int|
            0 <= j < claims@.len() ==> #[trigger] final(out)@[j] == portion(
                claims@,
                a@,
                left as nat,
                j,
            ),
{
    let n = claims.len();
    let mut given: u64 = 0;
    for i in 0..n
        invariant
            n == claims@.len(),
            a@.len() == n,
            out@.len() == n,
            weight == asking_weight(claims@, a@, n as nat),
            weight > 0,
            given == by_weight(claims@, a@, left as nat, weight as nat, i as nat),
            given <= left,
            forall|j: int| 0 <= j < n && !a@[j] ==> #[trigger] out@[j] == claims@[j].1,
            forall|j: int|
                0 <= j < i && a@[j] ==> #[trigger] out@[j] == left as nat * weight_of(claims@[j])
                    / weight as nat,
    {
        if a[i] {
            let w = claim_weight(&claims[i]);
            proof {
                assert(left as nat * w as nat <= 0xffff_ffff_ffff_ffff * 0xffff_ffff_ffff_ffff)
                    by (nonlinear_arith)
                    requires
                        left <= 0xffff_ffff_ffff_ffff,
                        w <= 0xffff_ffff_ffff_ffff,
                ;
                lemma_part_bound(claims@, a@, left as nat, i as int, n as nat);
            }
            let part: u64 = ((left as u128 * w as u128) / weight) as u64;
            proof {
                let k = (i + 1) as nat;
                let b = by_weight(claims@, a@, left as nat, weight as nat, k);
                lemma_by_weight_bound(claims@, a@, left as nat, weight as nat, k);
                lemma_weight_grows(claims@, a@, k, n as nat);
                let s = asking_weight(claims@, a@, k);
                assert(b <= left) by (nonlinear_arith)
                    requires
                        b * weight <= left * s,
                        s <= weight,
                        weight > 0,
                ;
            }
            out[i] = part;
            given = given + part;
        }
    }
    let rest: u64 = left - given;
    let mut over: u64 = rest;
    for i in 0..n
        invariant
            n == claims@.len(),
            a@.len() == n,
            out@.len() == n,
            weight == asking_weight(claims@, a@, n as nat),
            weight > 0,
            given == by_weight(claims@, a@, left as nat, weight as nat, n as nat),
            rest == left - given,
            over <= rest,
            over > 0 ==> asking_count(a@, i as nat) + over == rest,
            over == 0 ==> asking_count(a@, i as nat) >= rest,
            forall|j: int| 0 <= j < n && !a@[j] ==> #[trigger] out@[j] == claims@[j].1,
            forall|j: int|
                i <= j < n && a@[j] ==> #[trigger] out@[j] == left as nat * weight_of(claims@[j])
                    / weight as nat,
            forall|j: int|
                0 <= j < i ==> #[trigger] out@[j] == portion(claims@, a@, left as nat, j),
    {
        if a[i] && over > 0 {
            proof {
                lemma_by_weight_part(
                    claims@,
                    a@,
                    left as nat,
                    weight as nat,
                    i as int,
                    n as nat,
                );
            }
            out[i] = out[i] + 1;
            over = over - 1;
        }
    }
}

proof fn lemma_weight_grows(claims: Seq<(u64, u64)>, a: Seq<bool>, j: nat, k: nat)
    requires
        j <= k <= claims.len(),
    ensures
        asking_weight(claims, a, j) <= asking_weight(claims, a, k),
    decreases k,
{
    if j < k {
        lemma_weight_grows(claims, a, j, (k - 1) as nat);
    }
}

proof fn lemma_by_weight_part(
    claims: Seq<(u64, u64)>,
    a: Seq<bool>,
    left: nat,
    weight: nat,
    i: int,
    k: nat,
)
    requires
        0 <= i < k <= claims.len(),
        a[i],
        weight > 0,
    ensures
        left * weight_of(claims[i]) / weight <= by_weight(claims, a, left, weight, k),
    decreases k,
{
    if i < k - 1 {
        lemma_by_weight_part(claims, a, left, weight, i, (k - 1) as nat);
    }
    if a[k - 1] {
        assert(left * weight_of(claims[k - 1]) / weight >= 0);
    }
}

/// Weighted max-min fairness: split `total` among claimants of `(weight, demand)`. A common
/// level per unit of weight rises until the total is spent; a claimant whose demand is below
/// its level gets its demand, and the rest is shared among those still asking, in proportion to
/// weight. A remainder goes to the earliest claimants still asking.
pub fn water_fill(total: u64, claims: &[(u64, u64)]) -> (out: Vec<u64>)
    ensures
        out@.len() == claims@.len(),
        forall|i: int|
            0 <= i < claims@.len() ==> #[trigger] out@[i] == fair_split(total as nat, claims@)[i],
{
    let n = claims.len();
    let mut out: Vec<u64> = Vec::new();
    let mut a: Vec<bool> = Vec::new();
    for i in 0..n
        invariant
            n == claims@.len(),
            out@.len() == i,
            a@.len() == i,
            forall|j: int| 0 <= j < i ==> #[trigger] out@[j] == 0,
            forall|j: int| 0 <= j < i ==> #[trigger] a@[j],
    {
        out.push(0);
        a.push(true);
    }
    proof {
        lemma_all_asking(claims@, a@, n as nat);
    }
    if total == 0 {
        proof {
            lemma_split_nothing(claims@);
        }
        return out;
    }
    let mut left: u64 = total;
    loop
        invariant
            n == claims@.len(),
            poured(total as nat, claims@, a@, left as nat),
            out@.len() == n,
            forall|j: int|
                0 <= j < n ==> #[trigger] out@[j] == if a@[j] {
                    0
                } else {
                    claims@[j].1
                },
        decreases asking_count(a@, n as nat),
    {
        let weight = weigh(claims, &a);
        if weight == 0 {
            proof {
                lemma_round_done(total as nat, claims@, a@, left as nat);
                lemma_no_weight(claims@, a@, n as nat);
            }
            return out;
        }
        let (rest, moved) = pour_round(
            claims,
            &mut a,
            &mut out,
            left,
            weight,
            Ghost(total as nat),
        );
        if !moved {
            proof {
                lemma_round_stuck(total as nat, claims@, a@, left as nat);
            }
            share_rest(claims, &a, &mut out, left, weight);
            return out;
        }
        left = rest;
    }
}

// ------------------------------------------------------------ laws

/// One claim at or below the level is met; the level rises for the others.
proof fn lemma_meet_one(total: nat, claims: Seq<(u64, u64)>, a: Seq<bool>, left: nat, i: int)
    requires
        poured(total, claims, a, left),
        0 <= i < claims.len(),
        a[i],
        claims[i].1 as nat * asking_weight(claims, a, claims.len()) <= left * weight_of(claims[i]),
    ensures
        claims[i].1 <= left,
        poured(total, claims, a.update(i, false), (left - claims[i].1) as nat),
{
    let n = claims.len();
    let b = a.update(i, false);
    let weight = asking_weight(claims, a, n);
    let d = claims[i].1 as nat;
    let w = weight_of(claims[i]);
    lemma_stop(claims, a, i, n);
    lemma_weight_part(claims, a, i, n);
    assert(d <= left) by (nonlinear_arith)
        requires
            d * weight <= left * w,
            w <= weight,
            weight > 0,
    ;
    let rest = (left - d) as nat;
    let w1 = asking_weight(claims, b, n);
    assert(rest * weight >= left * w1) by (nonlinear_arith)
        requires
            d + rest == left,
            w + w1 == weight,
            d * weight <= left * w,
    ;
    assert forall|j: int| 0 <= j < n && !#[trigger] b[j] implies claims[j].1 as nat * w1 <= rest
        * weight_of(claims[j]) by {
        let dj = claims[j].1 as nat;
        let wj = weight_of(claims[j]);
        assert(dj * weight <= left * wj) by {
            if j != i {
                assert(!a[j]);
            }
        }
        assert(dj * w1 <= rest * wj) by (nonlinear_arith)
            requires
                dj * weight <= left * wj,
                rest * weight >= left * w1,
                weight > 0,
        ;
    }
}

proof fn lemma_fill(total: nat, claims: Seq<(u64, u64)>, a: Seq<bool>, left: nat)
    requires
        poured(total, claims, a, left),
    ensures
        poured(total, claims, asking(total, claims), left_for(total, claims, asking(total, claims))),
        forall|i: int|
            0 <= i < claims.len() && #[trigger] asking(total, claims)[i] ==> claims[i].1 as nat
                * asking_weight(claims, asking(total, claims), claims.len()) > left_for(
                total,
                claims,
                asking(total, claims),
            ) * weight_of(claims[i]),
    decreases asking_count(a, claims.len()),
{
    let n = claims.len();
    let weight = asking_weight(claims, a, n);
    if weight == 0 {
        lemma_round_done(total, claims, a, left);
        lemma_no_weight(claims, a, n);
    } else if exists|i: int|
        0 <= i < n && #[trigger] a[i] && claims[i].1 as nat * weight <= left * weight_of(
            claims[i],
        ) {
        let i = choose|i: int|
            0 <= i < n && #[trigger] a[i] && claims[i].1 as nat * weight <= left * weight_of(
                claims[i],
            );
        lemma_meet_one(total, claims, a, left, i);
        lemma_stop(claims, a, i, n);
        lemma_fill(total, claims, a.update(i, false), (left - claims[i].1) as nat);
    } else {
        lemma_round_stuck(total, claims, a, left);
    }
}

/// The level: those met are at or below it, those still asking above.
proof fn lemma_level(total: nat, claims: Seq<(u64, u64)>)
    ensures
        poured(total, claims, asking(total, claims), left_for(total, claims, asking(total, claims))),
        forall|i: int|
            0 <= i < claims.len() && #[trigger] asking(total, claims)[i] ==> claims[i].1 as nat
                * asking_weight(claims, asking(total, claims), claims.len()) > left_for(
                total,
                claims,
                asking(total, claims),
            ) * weight_of(claims[i]),
{
    let a = Seq::new(claims.len(), |i: int| true);
    lemma_all_asking(claims, a, claims.len());
    lemma_fill(total, claims, a, total);
}

/// Nobody gets more than it demands.
pub proof fn law_split_within_demand(total: nat, claims: Seq<(u64, u64)>, i: int)
    requires
        0 <= i < claims.len(),
    ensures
        fair_split(total, claims)[i] <= claims[i].1,
{
    let a = asking(total, claims);
    let left = left_for(total, claims, a);
    let n = claims.len();
    lemma_level(total, claims);
    if a[i] {
        lemma_weight_part(claims, a, i, n);
        lemma_floor(left, weight_of(claims[i]), asking_weight(claims, a, n));
        let weight = asking_weight(claims, a, n);
        let d = claims[i].1 as nat;
        let w = weight_of(claims[i]);
        let q = left * w / weight;
        assert(q < d) by (nonlinear_arith)
            requires
                d * weight > left * w,
                q * weight <= left * w,
        ;
    }
}

proof fn lemma_floor(left: nat, w: nat, weight: nat)
    requires
        weight > 0,
    ensures
        (left * w / weight) * weight <= left * w < (left * w / weight + 1) * weight,
{
    let q = left * w / weight;
    lemma_fundamental_div_mod((left * w) as int, weight as int);
    assert(q * weight <= left * w < (q + 1) * weight) by (nonlinear_arith)
        requires
            left * w == weight * q + (left * w) % weight,
            0 <= (left * w) % weight < weight,
    ;
}

/// The sum of the first `k` portions of a split.
pub open spec fn split_sum(out: Seq<nat>, k: nat) -> nat
    decreases k,
{
    if k == 0 {
        0
    } else {
        split_sum(out, (k - 1) as nat) + out[k - 1]
    }
}

/// The sum of the first `k` demands.
pub open spec fn demand_sum(claims: Seq<(u64, u64)>, k: nat) -> nat
    decreases k,
{
    if k == 0 {
        0
    } else {
        demand_sum(claims, (k - 1) as nat) + claims[k - 1].1 as nat
    }
}

proof fn lemma_split_sum(claims: Seq<(u64, u64)>, a: Seq<bool>, left: nat, out: Seq<nat>, k: nat)
    requires
        k <= claims.len(),
        a.len() == claims.len(),
        out.len() == claims.len(),
        forall|j: int|
            0 <= j < claims.len() ==> #[trigger] out[j] == portion(claims, a, left, j),
    ensures
        ({
            let weight = asking_weight(claims, a, claims.len());
            let rest = left - by_weight(claims, a, left, weight, claims.len());
            let count = asking_count(a, k);
            split_sum(out, k) == met_demand(claims, a, k) + by_weight(claims, a, left, weight, k)
                + (if count < rest {
                count as int
            } else if rest > 0 {
                rest
            } else {
                0
            })
        }),
    decreases k,
{
    if k > 0 {
        lemma_split_sum(claims, a, left, out, (k - 1) as nat);
        assert(out[k - 1] == portion(claims, a, left, k - 1));
        if a[k - 1] {
            lemma_weight_part(claims, a, k - 1, claims.len());
        }
    }
}

proof fn lemma_demand_sum(claims: Seq<(u64, u64)>, a: Seq<bool>, left: nat, k: nat)
    requires
        k <= claims.len(),
        asking_weight(claims, a, claims.len()) > 0,
        forall|i: int|
            0 <= i < k && #[trigger] a[i] ==> claims[i].1 as nat * asking_weight(
                claims,
                a,
                claims.len(),
            ) > left * weight_of(claims[i]),
    ensures
        (demand_sum(claims, k) - met_demand(claims, a, k)) * asking_weight(claims, a, claims.len())
            >= left * asking_weight(claims, a, k),
    decreases k,
{
    let weight = asking_weight(claims, a, claims.len());
    if k > 0 {
        let j = (k - 1) as nat;
        lemma_demand_sum(claims, a, left, j);
        if a[k - 1] {
            let d = claims[k - 1].1 as nat;
            let w = weight_of(claims[k - 1]);
            let x = demand_sum(claims, j) - met_demand(claims, a, j);
            let s = asking_weight(claims, a, j);
            assert((x + d) * weight >= left * (s + w)) by (nonlinear_arith)
                requires
                    x * weight >= left * s,
                    d * weight > left * w,
            ;
        }
    } else {
        assert((0 - 0) * weight >= left * 0) by (nonlinear_arith);
    }
}

proof fn lemma_demand_all_met(claims: Seq<(u64, u64)>, a: Seq<bool>, k: nat)
    requires
        k <= claims.len(),
        forall|i: int| 0 <= i < k ==> !#[trigger] a[i],
    ensures
        demand_sum(claims, k) == met_demand(claims, a, k),
        asking_count(a, k) == 0,
    decreases k,
{
    if k > 0 {
        lemma_demand_all_met(claims, a, (k - 1) as nat);
    }
}

/// A split hands out all there is, or all that is demanded where that is less.
pub proof fn law_split_spends(total: nat, claims: Seq<(u64, u64)>)
    ensures
        split_sum(fair_split(total, claims), claims.len()) == if demand_sum(claims, claims.len())
            <= total {
            demand_sum(claims, claims.len())
        } else {
            total
        },
{
    let a = asking(total, claims);
    let left = left_for(total, claims, a);
    let n = claims.len();
    let out = fair_split(total, claims);
    let weight = asking_weight(claims, a, n);
    lemma_level(total, claims);
    lemma_split_sum(claims, a, left, out, n);
    if weight == 0 {
        lemma_no_weight(claims, a, n);
        lemma_demand_all_met(claims, a, n);
        lemma_by_weight_none(claims, a, left, weight, n);
    } else {
        lemma_by_weight_bound(claims, a, left, weight, n);
        lemma_demand_sum(claims, a, left, n);
        let b = by_weight(claims, a, left, weight, n);
        let c = asking_count(a, n);
        assert(b <= left) by (nonlinear_arith)
            requires
                b * weight <= left * weight,
                weight > 0,
        ;
        assert(left <= b + c) by (nonlinear_arith)
            requires
                left * weight <= (b + c) * weight,
                weight > 0,
        ;
        let m = met_demand(claims, a, n);
        let x = demand_sum(claims, n);
        assert(x - m >= left) by (nonlinear_arith)
            requires
                (x - m) * weight >= left * weight,
                weight > 0,
        ;
    }
}

proof fn lemma_by_weight_none(
    claims: Seq<(u64, u64)>,
    a: Seq<bool>,
    left: nat,
    weight: nat,
    k: nat,
)
    requires
        k <= claims.len(),
        forall|i: int| 0 <= i < k ==> !#[trigger] a[i],
    ensures
        by_weight(claims, a, left, weight, k) == 0,
    decreases k,
{
    if k > 0 {
        lemma_by_weight_none(claims, a, left, weight, (k - 1) as nat);
    }
}

/// The split is max-min fair by weight, up to the rounding to whole units: where `i` gets less
/// than it demands, nobody gets more per unit of weight than `i` does, but for one unit that
/// `i`'s part may have lost and one that `j`'s may have won.
pub proof fn law_split_max_min(total: nat, claims: Seq<(u64, u64)>, i: int, j: int)
    requires
        0 <= i < claims.len(),
        0 <= j < claims.len(),
        fair_split(total, claims)[i] < claims[i].1,
    ensures
        (fair_split(total, claims)[j] - 1) * weight_of(claims[i]) < (fair_split(total, claims)[i]
            + 1) * weight_of(claims[j]),
        fair_split(total, claims)[j] == claims[j].1 && met(total, claims, j) ==> fair_split(
            total,
            claims,
        )[j] * weight_of(claims[i]) < (fair_split(total, claims)[i] + 1) * weight_of(claims[j]),
{
    let a = asking(total, claims);
    let left = left_for(total, claims, a);
    let n = claims.len();
    let weight = asking_weight(claims, a, n);
    let (wi, wj) = (weight_of(claims[i]), weight_of(claims[j]));
    let (oi, oj) = (fair_split(total, claims)[i], fair_split(total, claims)[j]);
    lemma_level(total, claims);
    assert(a[i]);
    lemma_weight_part(claims, a, i, n);
    lemma_floor(left, wi, weight);
    lemma_floor(left, wj, weight);
    let qi = left * wi / weight;
    let qj = left * wj / weight;
    assert((oi + 1) * weight > left * wi) by (nonlinear_arith)
        requires
            oi >= qi,
            left * wi < (qi + 1) * weight,
    ;
    if a[j] {
        assert((oj - 1) * weight <= left * wj) by (nonlinear_arith)
            requires
                oj <= qj + 1,
                qj * weight <= left * wj,
        ;
    } else {
        assert(oj * weight <= left * wj);
        assert(oj * wi < (oi + 1) * wj) by (nonlinear_arith)
            requires
                (oi + 1) * weight > left * wi,
                oj * weight <= left * wj,
                wi > 0,
                wj > 0,
                weight > 0,
        ;
        assert((oj - 1) * weight <= left * wj) by (nonlinear_arith)
            requires
                oj * weight <= left * wj,
        ;
    }
    assert((oj - 1) * wi < (oi + 1) * wj) by (nonlinear_arith)
        requires
            (oi + 1) * weight > left * wi,
            (oj - 1) * weight <= left * wj,
            wi > 0,
            wj > 0,
            weight > 0,
    ;
}

proof fn lemma_same_asking(
    claims: Seq<(u64, u64)>,
    lower: Seq<(u64, u64)>,
    a: Seq<bool>,
    i: int,
    left: nat,
    weight: nat,
    k: nat,
)
    requires
        0 <= i < claims.len(),
        k <= claims.len(),
        lower.len() == claims.len(),
        lower[i].0 == claims[i].0,
        a[i],
        forall|j: int| 0 <= j < claims.len() && j != i ==> #[trigger] lower[j] == claims[j],
    ensures
        asking_weight(lower, a, k) == asking_weight(claims, a, k),
        met_demand(lower, a, k) == met_demand(claims, a, k),
        by_weight(lower, a, left, weight, k) == by_weight(claims, a, left, weight, k),
    decreases k,
{
    if k > 0 {
        lemma_same_asking(claims, lower, a, i, left, weight, (k - 1) as nat);
        if k - 1 != i {
            assert(lower[k - 1] == claims[k - 1]);
        }
    }
}

/// A claimant that comes back demanding less, but no less than it got, gets the same again.
pub proof fn law_split_steady(total: nat, claims: Seq<(u64, u64)>, i: int, demand: u64)
    requires
        0 <= i < claims.len(),
        fair_split(total, claims)[i] <= demand <= claims[i].1,
    ensures
        fair_split(total, claims.update(i, (claims[i].0, demand)))[i] == fair_split(
            total,
            claims,
        )[i],
{
    let lower = claims.update(i, (claims[i].0, demand));
    let a = asking(total, claims);
    let left = left_for(total, claims, a);
    let n = claims.len();
    let weight = asking_weight(claims, a, n);
    lemma_level(total, claims);
    if !a[i] {
        assert(lower =~= claims);
    } else {
        lemma_same_asking(claims, lower, a, i, left, weight, n);
        lemma_weight_part(claims, a, i, n);
        let w = weight_of(claims[i]);
        lemma_floor(left, w, weight);
        let q = left * w / weight;
        assert(poured(total, lower, a, left)) by {
            assert forall|j: int| 0 <= j < n && !#[trigger] a[j] implies lower[j].1 as nat * weight
                <= left * weight_of(lower[j]) by {
                assert(lower[j] == claims[j]);
            }
        }
        let d = demand as nat;
        if d * weight > left * w {
            assert forall|j: int| 0 <= j < n && #[trigger] a[j] implies lower[j].1 as nat * weight
                > left * weight_of(lower[j]) by {
                if j != i {
                    assert(lower[j] == claims[j]);
                }
            }
            lemma_round_stuck(total, lower, a, left);
        } else {
            assert(d <= q) by (nonlinear_arith)
                requires
                    d * weight <= left * w,
                    left * w < (q + 1) * weight,
            ;
            lemma_round_met(total, lower, a, left, i);
        }
    }
}

/// A claim's weight in plain numbers: what it says, and one where it says zero.
pub open spec fn heft(claim: (u64, u64)) -> nat {
    if claim.0 > 0 {
        claim.0 as nat
    } else {
        1
    }
}

/// The hefts of those of the first `k` claims that want more.
pub open spec fn heft_of(claims: Seq<(u64, u64)>, more: Seq<bool>, k: nat) -> nat
    decreases k,
{
    if k == 0 {
        0
    } else if more[k - 1] {
        heft_of(claims, more, (k - 1) as nat) + heft(claims[k - 1])
    } else {
        heft_of(claims, more, (k - 1) as nat)
    }
}

/// The demands of those of the first `k` claims that want no more.
pub open spec fn covered(claims: Seq<(u64, u64)>, more: Seq<bool>, k: nat) -> nat
    decreases k,
{
    if k == 0 {
        0
    } else if more[k - 1] {
        covered(claims, more, (k - 1) as nat)
    } else {
        covered(claims, more, (k - 1) as nat) + claims[k - 1].1 as nat
    }
}

/// `out` is what a level gives: `left` is there for those that want `more`, whose hefts are
/// `weight` in all, so the level is `left / weight` for a unit of weight. Who wants no more has its
/// demand, which is at or below its part of the level. Who wants more has its part of the level
/// rounded down, which its demand is above, or one unit more; and the units more go to the
/// earliest.
pub open spec fn levelled(
    total: nat,
    claims: Seq<(u64, u64)>,
    out: Seq<nat>,
    more: Seq<bool>,
    left: nat,
    weight: nat,
) -> bool {
    &&& more.len() == claims.len()
    &&& weight == heft_of(claims, more, claims.len())
    &&& left + covered(claims, more, claims.len()) == total
    &&& forall|i: int|
        #![trigger out[i]]
        0 <= i < claims.len() ==> {
            let part = left * heft(claims[i]);
            &&& !more[i] ==> out[i] == claims[i].1 && claims[i].1 * weight <= part
            &&& more[i] ==> {
                &&& claims[i].1 * weight > part
                &&& out[i] * weight <= part && part < (out[i] + 1) * weight || (out[i] - 1) * weight
                    <= part && part < out[i] * weight
            }
        }
    &&& forall|i: int, j: int|
        #![trigger out[i], out[j]]
        0 <= i < j < claims.len() && more[i] && more[j] && out[j] * weight > left * heft(claims[j])
            ==> out[i] * weight > left * heft(claims[i])
}

proof fn lemma_heft(claims: Seq<(u64, u64)>, a: Seq<bool>, k: nat)
    requires
        k <= claims.len(),
    ensures
        heft_of(claims, a, k) == asking_weight(claims, a, k),
        covered(claims, a, k) == met_demand(claims, a, k),
    decreases k,
{
    if k > 0 {
        lemma_heft(claims, a, (k - 1) as nat);
    }
}

proof fn lemma_count_grows(a: Seq<bool>, j: nat, k: nat)
    requires
        j <= k,
    ensures
        asking_count(a, j) <= asking_count(a, k),
    decreases k,
{
    if j < k {
        lemma_count_grows(a, j, (k - 1) as nat);
    }
}

/// A split gives every claim one portion, and there is a level that gives just these portions.
pub proof fn law_split_has_a_level(total: nat, claims: Seq<(u64, u64)>)
    ensures
        fair_split(total, claims).len() == claims.len(),
        exists|more: Seq<bool>, left: nat, weight: nat|
            levelled(total, claims, fair_split(total, claims), more, left, weight),
{
    let a = asking(total, claims);
    let left = left_for(total, claims, a);
    let n = claims.len();
    let weight = asking_weight(claims, a, n);
    let out = fair_split(total, claims);
    lemma_level(total, claims);
    lemma_heft(claims, a, n);
    let rest = left - by_weight(claims, a, left, weight, n);
    assert forall|i: int|
        #![trigger out[i]]
        0 <= i < n implies {
        let part = left * heft(claims[i]);
        &&& !a[i] ==> out[i] == claims[i].1 && claims[i].1 * weight <= part
        &&& a[i] ==> {
            &&& claims[i].1 * weight > part
            &&& out[i] * weight <= part && part < (out[i] + 1) * weight || (out[i] - 1) * weight
                <= part && part < out[i] * weight
            &&& (out[i] * weight > part) == (asking_count(a, i as nat) < rest)
        }
    } by {
        assert(heft(claims[i]) == weight_of(claims[i]));
        if a[i] {
            lemma_weight_part(claims, a, i, n);
            lemma_floor(left, weight_of(claims[i]), weight);
        }
    }
    assert forall|i: int, j: int|
        #![trigger out[i], out[j]]
        0 <= i < j < n && a[i] && a[j] && out[j] * weight > left * heft(claims[j]) implies out[i]
        * weight > left * heft(claims[i]) by {
        lemma_count_grows(a, i as nat, j as nat);
    }
    assert(levelled(total, claims, out, a, left, weight));
}

/// Where one of two claims gets less than it demands, the other gets no more for a unit of weight,
/// but for a unit that rounding may have cost the one and one that it may have won the other. Of
/// two with the same weight the earlier gets no less than the later, and at most one unit more.
pub proof fn law_split_is_even_by_weight(total: nat, claims: Seq<(u64, u64)>, i: int, j: int)
    requires
        0 <= i < claims.len(),
        0 <= j < claims.len(),
        fair_split(total, claims)[i] < claims[i].1,
    ensures
        (fair_split(total, claims)[j] - 1) * heft(claims[i]) < (fair_split(total, claims)[i] + 1)
            * heft(claims[j]),
        heft(claims[i]) == heft(claims[j]) ==> fair_split(total, claims)[j] <= fair_split(
            total,
            claims,
        )[i] + 1,
        heft(claims[i]) == heft(claims[j]) && i < j ==> fair_split(total, claims)[j] <= fair_split(
            total,
            claims,
        )[i],
{
    law_split_max_min(total, claims, i, j);
    let (x, y, w) = (
        fair_split(total, claims)[i],
        fair_split(total, claims)[j],
        heft(claims[i]),
    );
    assert(weight_of(claims[i]) == heft(claims[i]) && weight_of(claims[j]) == heft(claims[j]));
    if heft(claims[i]) == heft(claims[j]) {
        assert(y <= x + 1) by (nonlinear_arith)
            requires
                (y - 1) * w < (x + 1) * w,
                w > 0,
        ;
        if i < j {
            law_split_has_a_level(total, claims);
            let (more, left, weight) = choose|more: Seq<bool>, left: nat, weight: nat|
                levelled(total, claims, fair_split(total, claims), more, left, weight);
            let out = fair_split(total, claims);
            assert(out[i] == x && out[j] == y);
            let part = left * w;
            if y == x + 1 {
                assert(more[i]);
                if more[j] {
                    assert(weight > 0) by (nonlinear_arith)
                        requires
                            claims[i].1 * weight > part,
                            part >= 0,
                    ;
                    assert(false) by (nonlinear_arith)
                        requires
                            weight > 0,
                            y == x + 1,
                            y * weight <= part || (y - 1) * weight <= part && part < y * weight,
                            x * weight <= part && part < (x + 1) * weight || (x - 1) * weight <= part
                                && part < x * weight,
                            y * weight > part ==> x * weight > part,
                    ;
                } else {
                    assert(false) by (nonlinear_arith)
                        requires
                            y == x + 1,
                            y * weight <= part,
                            x * weight <= part && part < (x + 1) * weight || (x - 1) * weight <= part
                                && part < x * weight,
                    ;
                }
            }
        }
    }
}

} // verus!

//! Ordered keys: what it takes of a key type, sets listed in ascending order, and sums over
//! finite sets.
use std::collections::BTreeMap;
use std::collections::BTreeSet;
use std::collections::btree_map::Iter;
use vstd::laws_cmp::obeys_cmp;
use vstd::laws_cmp::obeys_cmp_ord;
use vstd::laws_cmp::obeys_cmp_partial_ord;
use vstd::laws_cmp::obeys_partial_cmp_spec_properties;
use vstd::laws_eq::obeys_concrete_eq;
use vstd::prelude::*;
use vstd::seq_lib::group_seq_properties;
use vstd::std_specs::btree::spec_btree_map_iter;
use vstd::std_specs::cmp::OrdSpec;
use vstd::std_specs::iter::IteratorSpec;

verus! {

// ------------------------------------------------------------ key types

/// A type fit to name a node or a limit: `==` and `<` are an equality and a total order on its
/// values, as `Eq` and `Ord` ask, and a clone is the value itself.
pub open spec fn lawful<T: Ord + Clone>() -> bool {
    &&& obeys_cmp::<T>()
    &&& obeys_concrete_eq::<T>()
    &&& forall|a: T, b: T| #[trigger] cloned(a, b) ==> a == b
}

/// `a` comes before `b`.
pub open spec fn precedes<T: Ord>(a: T, b: T) -> bool {
    a.cmp_spec(&b) is Less
}

/// The order is strict and total.
pub proof fn lemma_order<T: Ord + Clone>()
    requires
        lawful::<T>(),
    ensures
        forall|a: T| !#[trigger] precedes(a, a),
        forall|a: T, b: T, c: T| #[trigger]
            precedes(a, b) && #[trigger] precedes(b, c) ==> precedes(a, c),
        forall|a: T, b: T| #[trigger] precedes(a, b) || a == b || precedes(b, a),
{
    reveal(obeys_cmp_ord);
    reveal(obeys_cmp_partial_ord);
    reveal(obeys_partial_cmp_spec_properties);
    reveal(obeys_concrete_eq);
    assert forall|a: T, b: T, c: T| #[trigger]
        precedes(a, b) && #[trigger] precedes(b, c) implies precedes(a, c) by {
        assert(a.cmp_spec(&b) is Less);
        assert(b.cmp_spec(&c) is Less);
        assert(a.cmp_spec(&c) is Less);
    }
}

/// Whether two names are the same.
pub fn same<T: Ord + Clone>(a: &T, b: &T) -> (r: bool)
    requires
        lawful::<T>(),
    ensures
        r == (*a == *b),
{
    proof {
        reveal(obeys_concrete_eq);
    }
    *a == *b
}

/// Whether `a` comes before `b`.
pub fn less<T: Ord + Clone>(a: &T, b: &T) -> (r: bool)
    requires
        lawful::<T>(),
    ensures
        r == precedes(*a, *b),
{
    proof {
        reveal(obeys_cmp_ord);
        reveal(obeys_cmp_partial_ord);
    }
    *a < *b
}

/// Whether `a` holds the name `b`.
pub fn holds<T: Ord + Clone>(a: &Option<T>, b: &T) -> (r: bool)
    requires
        lawful::<T>(),
    ensures
        r == (*a == Some(*b)),
{
    proof {
        reveal(obeys_concrete_eq);
    }
    a.as_ref() == Some(b)
}

/// The same name once more.
pub fn copy_of<T: Ord + Clone>(a: &T) -> (r: T)
    requires
        lawful::<T>(),
    ensures
        r == *a,
{
    let r = a.clone();
    assert(cloned(*a, r));
    r
}

/// The same optional name once more.
pub fn copy_of_option<T: Ord + Clone>(a: &Option<T>) -> (r: Option<T>)
    requires
        lawful::<T>(),
    ensures
        r == *a,
{
    match a {
        Some(x) => Some(copy_of(x)),
        None => None,
    }
}

// ------------------------------------------------------------ ascending sequences

/// Every element comes before the later ones.
pub open spec fn ascending<T: Ord>(s: Seq<T>) -> bool {
    forall|i: int, j: int| 0 <= i < j < s.len() ==> precedes(#[trigger] s[i], #[trigger] s[j])
}

/// The elements of a finite set, in ascending order.
pub open spec fn in_order<T: Ord>(s: Set<T>) -> Seq<T> {
    choose|t: Seq<T>| ascending(t) && #[trigger] t.to_set() == s
}

/// An ascending sequence is determined by its elements.
pub proof fn lemma_ascending_unique<T: Ord + Clone>(s: Seq<T>, t: Seq<T>)
    requires
        lawful::<T>(),
        ascending(s),
        ascending(t),
        s.to_set() == t.to_set(),
    ensures
        s == t,
    decreases s.len(),
{
    lemma_order::<T>();
    if s.len() == 0 {
        if t.len() > 0 {
            assert(t.to_set().contains(t[0]));
            assert(s.contains(t[0]));
        }
        assert(s =~= t);
    } else {
        assert(s.to_set().contains(s.last()));
        assert(t.contains(s.last()));
        assert(t.to_set().contains(t.last()));
        assert(s.contains(t.last()));
        let i = choose|i: int| 0 <= i < t.len() && t[i] == s.last();
        let j = choose|j: int| 0 <= j < s.len() && s[j] == t.last();
        assert(s.last() == t.last()) by {
            if i < t.len() - 1 {
                assert(precedes(t[i], t[t.len() - 1]));
                if j < s.len() - 1 {
                    assert(precedes(s[j], s[s.len() - 1]));
                }
            }
        }
        let (s1, t1) = (s.drop_last(), t.drop_last());
        assert(s1.to_set() =~= t1.to_set()) by {
            assert forall|x: T| s1.contains(x) <==> t1.contains(x) by {
                if s1.contains(x) {
                    let k = choose|k: int| 0 <= k < s1.len() && s1[k] == x;
                    assert(s[k] == x);
                    assert(s.to_set().contains(x));
                    assert(t.contains(x));
                    let m = choose|m: int| 0 <= m < t.len() && t[m] == x;
                    assert(precedes(s[k], s[s.len() - 1]));
                    assert(m < t.len() - 1);
                    assert(t1[m] == x);
                }
                if t1.contains(x) {
                    let k = choose|k: int| 0 <= k < t1.len() && t1[k] == x;
                    assert(t[k] == x);
                    assert(t.to_set().contains(x));
                    assert(s.contains(x));
                    let m = choose|m: int| 0 <= m < s.len() && s[m] == x;
                    assert(precedes(t[k], t[t.len() - 1]));
                    assert(m < s.len() - 1);
                    assert(s1[m] == x);
                }
            }
        }
        lemma_ascending_unique(s1, t1);
        assert(s =~= s1.push(s.last()));
        assert(t =~= t1.push(t.last()));
    }
}

/// `x` put into an ascending sequence at its place.
pub open spec fn put<T: Ord>(s: Seq<T>, x: T) -> Seq<T>
    decreases s.len(),
{
    if s.len() == 0 {
        seq![x]
    } else if precedes(s.last(), x) {
        s.push(x)
    } else {
        put(s.drop_last(), x).push(s.last())
    }
}

proof fn lemma_put<T: Ord + Clone>(s: Seq<T>, x: T)
    requires
        lawful::<T>(),
        ascending(s),
        !s.contains(x),
    ensures
        ascending(put(s, x)),
        put(s, x).to_set() == s.to_set().insert(x),
    decreases s.len(),
{
    broadcast use group_seq_properties;

    lemma_order::<T>();
    if s.len() == 0 {
        assert(put(s, x) =~= seq![x]);
        assert(put(s, x).to_set() =~= s.to_set().insert(x)) by {
            assert(seq![x][0] == x);
        }
    } else if precedes(s.last(), x) {
        let t = s.push(x);
        assert forall|i: int, j: int| 0 <= i < j < t.len() implies precedes(
            #[trigger] t[i],
            #[trigger] t[j],
        ) by {
            if j == s.len() && i < s.len() - 1 {
                assert(precedes(s[i], s[s.len() - 1]));
            }
        }
        assert(t.to_set() =~= s.to_set().insert(x));
    } else {
        let r = s.drop_last();
        assert(s =~= r.push(s.last()));
        assert(!r.contains(x)) by {
            if r.contains(x) {
                let k = choose|k: int| 0 <= k < r.len() && r[k] == x;
                assert(s[k] == x);
            }
        }
        assert(ascending(r));
        lemma_put(r, x);
        let p = put(r, x);
        let t = p.push(s.last());
        assert(s.contains(s.last()));
        assert forall|i: int, j: int| 0 <= i < j < t.len() implies precedes(
            #[trigger] t[i],
            #[trigger] t[j],
        ) by {
            if j == p.len() {
                assert(p.to_set().contains(p[i]));
                assert(r.to_set().insert(x).contains(p[i]));
                if p[i] != x {
                    assert(r.contains(p[i]));
                    let k = choose|k: int| 0 <= k < r.len() && r[k] == p[i];
                    assert(precedes(s[k], s[s.len() - 1]));
                }
            }
        }
        assert(s.to_set() =~= r.to_set().insert(s.last()));
        assert(t.to_set() =~= p.to_set().insert(s.last()));
        assert(t.to_set() =~= s.to_set().insert(x));
    }
}

proof fn lemma_in_order_exists<T: Ord + Clone>(s: Set<T>) -> (t: Seq<T>)
    requires
        lawful::<T>(),
        s.finite(),
    ensures
        ascending(t),
        t.to_set() == s,
    decreases s.len(),
{
    if s.len() == 0 {
        let t = Seq::<T>::empty();
        assert(t.to_set() =~= s);
        t
    } else {
        let x = s.choose();
        let r = lemma_in_order_exists(s.remove(x));
        assert(!r.contains(x)) by {
            if r.contains(x) {
                assert(r.to_set().contains(x));
            }
        }
        lemma_put(r, x);
        assert(r.to_set().insert(x) =~= s);
        put(r, x)
    }
}

/// A finite set has exactly one listing in ascending order, and nothing occurs in it twice.
pub proof fn lemma_in_order<T: Ord + Clone>(s: Set<T>)
    requires
        lawful::<T>(),
        s.finite(),
    ensures
        ascending(in_order(s)),
        in_order(s).to_set() == s,
        in_order(s).no_duplicates(),
        in_order(s).len() == s.len(),
        forall|x: T| in_order(s).contains(x) <==> s.contains(x),
        forall|i: int| 0 <= i < in_order(s).len() ==> s.contains(#[trigger] in_order(s)[i]),
        forall|t: Seq<T>| ascending(t) && #[trigger] t.to_set() == s ==> t == in_order(s),
{
    let w = lemma_in_order_exists(s);
    let o = in_order(s);
    assert(ascending(o) && o.to_set() == s);
    lemma_order::<T>();
    assert forall|i: int, j: int| 0 <= i < o.len() && 0 <= j < o.len() && i != j implies o[i]
        != o[j] by {
        if i < j {
            assert(precedes(o[i], o[j]));
        } else {
            assert(precedes(o[j], o[i]));
        }
    }
    o.unique_seq_to_set();
    assert forall|x: T| o.contains(x) <==> s.contains(x) by {
        assert(o.to_set().contains(x) <==> s.contains(x));
    }
    assert forall|i: int| 0 <= i < o.len() implies s.contains(#[trigger] o[i]) by {
        assert(o.contains(o[i]));
    }
    assert forall|t: Seq<T>| ascending(t) && #[trigger] t.to_set() == s implies t == o by {
        lemma_ascending_unique(t, o);
    }
}

/// The entries that an ordered map's iterator yields: every key once, ascending, with its
/// value.
pub proof fn lemma_iter<K: Ord + Clone, V>(m: &BTreeMap<K, V>, it: Iter<'_, K, V>)
    requires
        lawful::<K>(),
        it == spec_btree_map_iter(m),
        vstd::std_specs::btree::increasing_seq(
            it.remaining().map_values(|kv: (&K, &V)| *kv.0),
        ),
    ensures
        it.remaining().len() == in_order(m@.dom()).len(),
        m@.dom().finite(),
        forall|i: int|
            #![trigger it.remaining()[i]]
            0 <= i < it.remaining().len() ==> {
                &&& *it.remaining()[i].0 == in_order(m@.dom())[i]
                &&& m@.contains_key(*it.remaining()[i].0)
                &&& *it.remaining()[i].1 == m@[*it.remaining()[i].0]
            },
{
    let r = it.remaining();
    let ks = r.map_values(|kv: (&K, &V)| *kv.0);
    assert(ascending(ks));
    assert(ks.to_set() =~= m@.dom()) by {
        assert forall|k: K| ks.contains(k) <==> m@.contains_key(k) by {
            if ks.contains(k) {
                let i = choose|i: int| 0 <= i < ks.len() && ks[i] == k;
                assert(m@.contains_key(*r[i].0));
            }
            if m@.contains_key(k) {
                assert(r.contains((&k, &m@[k])));
                let i = choose|i: int| 0 <= i < r.len() && r[i] == (&k, &m@[k]);
                assert(ks[i] == k);
            }
        }
    }
    lemma_in_order(m@.dom());
    assert(ks == in_order(m@.dom()));
    assert forall|i: int|
        #![trigger r[i]]
        0 <= i < r.len() implies {
        &&& *r[i].0 == in_order(m@.dom())[i]
        &&& m@.contains_key(*r[i].0)
        &&& *r[i].1 == m@[*r[i].0]
    } by {
        assert(ks[i] == *r[i].0);
        assert(m@.contains_key(*r[i].0));
    }
}

/// The keys of an ordered map, ascending.
pub fn keys_of<K: Ord + Clone, V>(m: &BTreeMap<K, V>) -> (r: Vec<K>)
    requires
        lawful::<K>(),
    ensures
        r@ == in_order(m@.dom()),
        m@.dom().finite(),
{
    let mut out: Vec<K> = Vec::new();
    let all = m.iter();
    proof {
        lemma_iter(m, all);
    }
    for e in it: all
        invariant
            lawful::<K>(),
            it.seq().len() == in_order(m@.dom()).len(),
            forall|i: int|
                #![trigger it.seq()[i]]
                0 <= i < it.seq().len() ==> *it.seq()[i].0 == in_order(m@.dom())[i],
            out@ =~= in_order(m@.dom()).take(it.index() as int),
    {
        out.push(copy_of(e.0));
    }
    out
}

/// Put a name into an ascending list, unless it is there.
pub fn put_name<T: Ord + Clone>(list: &mut Vec<T>, x: &T)
    requires
        lawful::<T>(),
        ascending(old(list)@),
    ensures
        ascending(final(list)@),
        final(list)@.to_set() == old(list)@.to_set().insert(*x),
{
    let ghost was = list@;
    proof {
        lemma_order::<T>();
    }
    let mut at: usize = 0;
    while at < list.len() && less(&list[at], x)
        invariant
            lawful::<T>(),
            list@ == was,
            at <= was.len(),
            forall|i: int| 0 <= i < at ==> precedes(#[trigger] was[i], *x),
        decreases list.len() - at,
    {
        at = at + 1;
    }
    if at < list.len() && same(&list[at], x) {
        assert(was.to_set().contains(was[at as int])) by {
            assert(was.contains(was[at as int]));
        }
        assert(was.to_set().insert(*x) =~= was.to_set());
        return;
    }
    let y = copy_of(x);
    list.insert(at, y);
    proof {
        let t = list@;
        assert(t == was.insert(at as int, y));
        assert forall|i: int, j: int| 0 <= i < j < t.len() implies precedes(
            #[trigger] t[i],
            #[trigger] t[j],
        ) by {
            let wi = if i < at {
                i
            } else {
                i - 1
            };
            let wj = if j < at {
                j
            } else {
                j - 1
            };
            if i == at {
                assert(precedes(*x, was[at as int]));
                if wj > at {
                    assert(precedes(was[at as int], was[wj]));
                }
            } else if j == at {
                assert(precedes(was[i], *x));
            } else {
                assert(precedes(was[wi], was[wj]));
            }
        }
        assert(t.to_set() =~= was.to_set().insert(*x)) by {
            assert forall|z: T| t.contains(z) <==> was.contains(z) || z == *x by {
                if t.contains(z) {
                    let k = choose|k: int| 0 <= k < t.len() && t[k] == z;
                    if k < at {
                        assert(was[k] == z);
                    } else if k > at {
                        assert(was[k - 1] == z);
                    }
                }
                if was.contains(z) {
                    let k = choose|k: int| 0 <= k < was.len() && was[k] == z;
                    if k < at {
                        assert(t[k] == z);
                    } else {
                        assert(t[k + 1] == z);
                    }
                }
                assert(t[at as int] == *x);
            }
        }
    }
}

/// The set of names in a slice.
pub fn names_in<T: Ord + Clone>(list: &[T]) -> (r: BTreeSet<T>)
    requires
        lawful::<T>(),
    ensures
        r@ == list@.to_set(),
{
    let mut set: BTreeSet<T> = BTreeSet::new();
    for i in 0..list.len()
        invariant
            lawful::<T>(),
            set@ == list@.take(i as int).to_set(),
    {
        set.insert(copy_of(&list[i]));
        proof {
            assert(list@.take(i + 1) =~= list@.take(i as int).push(list@[i as int]));
            lemma_to_set_push(list@.take(i as int), list@[i as int]);
        }
    }
    proof {
        assert(list@.take(list@.len() as int) =~= list@);
    }
    set
}

/// The set of names in a list, one longer.
pub proof fn lemma_to_set_push<T>(s: Seq<T>, x: T)
    ensures
        s.push(x).to_set() == s.to_set().insert(x),
{
    assert forall|z: T| s.push(x).to_set().contains(z) <==> s.to_set().insert(x).contains(z) by {
        if s.contains(z) {
            let k = choose|k: int| 0 <= k < s.len() && s[k] == z;
            assert(s.push(x)[k] == z);
        }
        assert(s.push(x)[s.len() as int] == x);
    }
    assert(s.push(x).to_set() =~= s.to_set().insert(x));
}

/// A filtered list, one longer.
pub proof fn lemma_filter_push<T>(s: Seq<T>, x: T, p: spec_fn(T) -> bool)
    ensures
        s.push(x).filter(p) == if p(x) {
            s.filter(p).push(x)
        } else {
            s.filter(p)
        },
{
    reveal(Seq::filter);
    assert(s.push(x).drop_last() =~= s);
}

/// What passes the filter is kept.
pub proof fn lemma_filter_keeps<T>(s: Seq<T>, p: spec_fn(T) -> bool, i: int)
    requires
        0 <= i < s.len(),
        p(s[i]),
    ensures
        s.filter(p).contains(s[i]),
    decreases s.len(),
{
    let r = s.drop_last();
    assert(s =~= r.push(s.last()));
    lemma_filter_push(r, s.last(), p);
    if i < s.len() - 1 {
        lemma_filter_keeps(r, p, i);
        assert(r[i] == s[i]);
        let f = r.filter(p);
        let j = choose|j: int| 0 <= j < f.len() && f[j] == s[i];
        assert(s.filter(p)[j] == s[i]);
    } else {
        let f = s.filter(p);
        assert(f[f.len() - 1] == s[i]);
    }
}

/// Where nothing passes the filter, nothing is left.
pub proof fn lemma_filter_none<T>(s: Seq<T>, p: spec_fn(T) -> bool)
    requires
        forall|i: int| 0 <= i < s.len() ==> !p(#[trigger] s[i]),
    ensures
        s.filter(p).len() == 0,
    decreases s.len(),
{
    reveal(Seq::filter);
    if s.len() > 0 {
        lemma_filter_none(s.drop_last(), p);
    }
}

// ------------------------------------------------------------ sums

/// The sum of `f` over a finite set.
pub open spec fn sum_over<T>(s: Set<T>, f: spec_fn(T) -> nat) -> nat
    decreases s.len(),
{
    if s.finite() && s.len() > 0 {
        f(s.choose()) + sum_over(s.remove(s.choose()), f)
    } else {
        0
    }
}

/// The sum of `f` along a sequence.
pub open spec fn sum_along<T>(s: Seq<T>, f: spec_fn(T) -> nat) -> nat
    decreases s.len(),
{
    if s.len() == 0 {
        0
    } else {
        sum_along(s.drop_last(), f) + f(s.last())
    }
}

/// Any element can be taken out of a sum first.
pub proof fn lemma_sum_remove<T>(s: Set<T>, x: T, f: spec_fn(T) -> nat)
    requires
        s.finite(),
        s.contains(x),
    ensures
        sum_over(s, f) == f(x) + sum_over(s.remove(x), f),
    decreases s.len(),
{
    let c = s.choose();
    if c != x {
        lemma_sum_remove(s.remove(c), x, f);
        lemma_sum_remove(s.remove(x), c, f);
        assert(s.remove(c).remove(x) =~= s.remove(x).remove(c));
    }
}

/// A new element adds its own part.
pub proof fn lemma_sum_insert<T>(s: Set<T>, x: T, f: spec_fn(T) -> nat)
    requires
        s.finite(),
        !s.contains(x),
    ensures
        sum_over(s.insert(x), f) == f(x) + sum_over(s, f),
{
    lemma_sum_remove(s.insert(x), x, f);
    assert(s.insert(x).remove(x) =~= s);
}

/// Sums of equal parts are equal; of smaller parts, smaller.
pub proof fn lemma_sum_compare<T>(s: Set<T>, f: spec_fn(T) -> nat, g: spec_fn(T) -> nat)
    requires
        s.finite(),
    ensures
        (forall|x: T| s.contains(x) ==> #[trigger] f(x) == g(x)) ==> sum_over(s, f) == sum_over(
            s,
            g,
        ),
        (forall|x: T| s.contains(x) ==> #[trigger] f(x) <= g(x)) ==> sum_over(s, f) <= sum_over(
            s,
            g,
        ),
    decreases s.len(),
{
    if s.len() > 0 {
        lemma_sum_compare(s.remove(s.choose()), f, g);
    }
}

/// A part is at most the sum.
pub proof fn lemma_sum_part<T>(s: Set<T>, x: T, f: spec_fn(T) -> nat)
    requires
        s.finite(),
        s.contains(x),
    ensures
        f(x) <= sum_over(s, f),
{
    lemma_sum_remove(s, x, f);
}

/// A sum along a listing without repeats is the sum over the set listed.
pub proof fn lemma_sum_listing<T>(s: Seq<T>, f: spec_fn(T) -> nat)
    requires
        s.no_duplicates(),
    ensures
        sum_along(s, f) == sum_over(s.to_set(), f),
    decreases s.len(),
{
    if s.len() == 0 {
        assert(s.to_set() =~= Set::<T>::empty());
    } else {
        let r = s.drop_last();
        lemma_sum_listing(r, f);
        assert(!r.to_set().contains(s.last())) by {
            if r.contains(s.last()) {
                let k = choose|k: int| 0 <= k < r.len() && r[k] == s.last();
                assert(s[k] == s[s.len() - 1]);
            }
        }
        assert(s.to_set() =~= r.to_set().insert(s.last())) by {
            assert forall|x: T| s.contains(x) <==> r.contains(x) || x == s.last() by {
                if s.contains(x) {
                    let k = choose|k: int| 0 <= k < s.len() && s[k] == x;
                    if k < s.len() - 1 {
                        assert(r[k] == x);
                    }
                }
                if r.contains(x) {
                    let k = choose|k: int| 0 <= k < r.len() && r[k] == x;
                    assert(s[k] == x);
                }
                assert(s[s.len() - 1] == s.last());
            }
        }
        lemma_sum_insert(r.to_set(), s.last(), f);
    }
}

} // verus!

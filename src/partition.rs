//! Round-robin assignment of keys to workers.

use vstd::prelude::*;
use vstd::multiset::Multiset;
use vstd::arithmetic::div_mod::{lemma_fundamental_div_mod, lemma_fundamental_div_mod_converse};

verus! {

/// The number of workers actually used: a requested count of zero means one.
pub open spec fn worker_count(threads: nat) -> nat {
    if threads == 0 {
        1
    } else {
        threads
    }
}

/// How many of `n` keys go to partition `p` of `t` under round-robin
/// assignment: every partition gets `n / t`, and the first `n % t` one more.
pub open spec fn part_len(n: nat, t: nat, p: nat) -> nat
    recommends
        t > 0,
{
    n / t + if p < n % t {
        1nat
    } else {
        0nat
    }
}

/// Round-robin partitions of `keys` for `t` workers: the key at position `i`
/// goes to partition `i % t`, and each partition keeps the keys' order.
pub open spec fn round_robin<T>(keys: Seq<T>, t: nat) -> Seq<Seq<T>>
    recommends
        t > 0,
{
    Seq::new(t, |p: int| Seq::new(part_len(keys.len(), t, p as nat), |k: int| keys[p + k * t]))
}

/// Seq of the first `len` elements of partition `p` as it stands in `keys`.
spec fn prefix_part<T>(keys: Seq<T>, t: nat, p: int, len: nat) -> Seq<T> {
    Seq::new(len, |k: int| keys[p + k * t])
}

/// Splits `keys` into `threads` partitions by round-robin (at least one),
/// and returns them with the number of keys.
pub fn split_tasks<T>(keys: Vec<T>, threads: usize) -> (r: (Vec<Vec<T>>, usize))
    ensures
        r.0@.len() == worker_count(threads as nat),
        forall|p: int| 0 <= p < r.0@.len() ==> #[trigger] r.0@[p]@ == round_robin(keys@, worker_count(threads as nat))[p],
        r.1 == keys@.len(),
{
    let t: usize = if threads == 0 {
        1
    } else {
        threads
    };
    let ghost all = keys@;
    // Reverse the keys so that popping hands them out in their original order.
    let mut keys = keys;
    let mut rev: Vec<T> = Vec::new();
    while keys.len() > 0
        invariant
            all.len() == keys@.len() + rev@.len(),
            keys@ == all.take(keys@.len() as int),
            forall|j: int| 0 <= j < rev@.len() ==> #[trigger] rev@[j] == all[all.len() - 1 - j],
        decreases keys@.len(),
    {
        let x = keys.pop().unwrap();
        proof {
            assert(keys@ =~= all.take(keys@.len() as int));
        }
        rev.push(x);
    }
    let mut tasks: Vec<Vec<T>> = Vec::new();
    let mut p: usize = 0;
    while p < t
        invariant
            p <= t,
            tasks@.len() == p,
            forall|q: int| 0 <= q < p ==> #[trigger] tasks@[q]@.len() == 0,
        decreases t - p,
    {
        tasks.push(Vec::new());
        p = p + 1;
    }
    let n: usize = rev.len();
    let mut i: usize = 0;
    let mut round: usize = 0;
    let mut p: usize = 0;
    while i < n
        invariant
            n == all.len(),
            rev@.len() == n - i,
            forall|j: int| 0 <= j < rev@.len() ==> #[trigger] rev@[j] == all[all.len() - 1 - j],
            t > 0,
            t == worker_count(threads as nat),
            p < t,
            i <= n,
            i == round * t + p,
            round <= i,
            tasks@.len() == t,
            forall|q: int|
                0 <= q < t ==> #[trigger] tasks@[q]@ == prefix_part(
                    all,
                    t as nat,
                    q,
                    (if q < p {
                        round + 1
                    } else {
                        round as int
                    }) as nat,
                ),
        decreases n - i,
    {
        let x = rev.pop().unwrap();
        proof {
            assert(x == all[i as int]);
        }
        tasks[p].push(x);
        proof {
            assert(tasks@[p as int]@ =~= prefix_part(all, t as nat, p as int, (round + 1) as nat));
        }
        i = i + 1;
        if p + 1 == t {
            proof {
                assert((round + 1) * t == round * t + t) by (nonlinear_arith);
                assert(round + 1 <= (round + 1) * t) by (nonlinear_arith)
                    requires t >= 1;
            }
            p = 0;
            round = round + 1;
        } else {
            p = p + 1;
        }
    }
    proof {
        lemma_fundamental_div_mod_converse(n as int, t as int, round as int, p as int);
        assert forall|q: int| 0 <= q < t implies #[trigger] tasks@[q]@ == round_robin(all, t as nat)[q] by {
            assert(tasks@[q]@ =~= round_robin(all, t as nat)[q]);
        }
    }
    (tasks, n)
}

/// Everything that some partition holds.
pub open spec fn assigned<T>(parts: Seq<Seq<T>>) -> Set<T> {
    Set::new(
        |x: T|
            exists|p: int, k: int|
                0 <= p < parts.len() && 0 <= k < parts[p].len() && #[trigger] parts[p][k] == x,
    )
}

proof fn lemma_slot_in_range(n: int, t: int, p: int, k: int)
    requires
        t >= 1,
        n >= 0,
        0 <= p < t,
        0 <= k < part_len(n as nat, t as nat, p as nat),
    ensures
        p + k * t < n,
{
    lemma_fundamental_div_mod(n, t);
    let d = n / t;
    let m = n % t;
    if k < d {
        assert(p + k * t < d * t) by (nonlinear_arith)
            requires
                0 <= p < t,
                0 <= k < d,
        ;
    } else {
        assert(k == d && p < m);
    }
}

proof fn lemma_position_in_slot(n: int, t: int, i: int)
    requires
        t >= 1,
        0 <= i < n,
    ensures
        0 <= i % t < t,
        0 <= i / t < part_len(n as nat, t as nat, (i % t) as nat),
        i % t + (i / t) * t == i,
{
    lemma_fundamental_div_mod(n, t);
    lemma_fundamental_div_mod(i, t);
    let d = n / t;
    let m = n % t;
    let k = i / t;
    let p = i % t;
    assert(0 <= p < t && k >= 0 && 0 <= m < t);
    assert(k <= d) by {
        if k > d {
            assert(false) by (nonlinear_arith)
                requires
                    k > d,
                    t >= 1,
                    0 <= p,
                    i == t * k + p,
                    n == t * d + m,
                    m < t,
                    i < n,
            ;
        }
    }
    if k == d {
        assert(p < m);
    }
}

proof fn lemma_slots_distinct(t: int, p1: int, k1: int, p2: int, k2: int)
    requires
        t >= 1,
        0 <= p1 < t,
        0 <= p2 < t,
        0 <= k1,
        0 <= k2,
        p1 + k1 * t == p2 + k2 * t,
    ensures
        p1 == p2 && k1 == k2,
{
    let x = p1 + k1 * t;
    assert(x == k1 * t + p1 && x == k2 * t + p2);
    lemma_fundamental_div_mod_converse(x, t, k1, p1);
    lemma_fundamental_div_mod_converse(x, t, k2, p2);
}

/// Round-robin partitioning for `t >= 1` workers yields exactly `t`
/// partitions whose sizes differ by at most one. The key at position `i`
/// stands in partition `i % t`, every entry of a partition is the key at the
/// position `p + k * t`, and no two entries come from the same position: the
/// partitions together hold each key exactly once, as a permutation of the
/// key sequence.
pub proof fn lemma_round_robin_partitions<T>(keys: Seq<T>, t: nat)
    requires
        t >= 1,
    ensures
        round_robin(keys, t).len() == t,
        contents(round_robin(keys, t)) == keys.to_multiset(),
        contents(round_robin(keys, t)).len() == keys.len(),
        forall|p: int, q: int|
            0 <= p < t && 0 <= q < t ==> #[trigger] round_robin(keys, t)[p].len()
                <= #[trigger] round_robin(keys, t)[q].len() + 1,
        forall|i: int| 0 <= i < keys.len() ==> #[trigger] position_assigned(keys, t, i),
        forall|p: int, k: int|
            0 <= p < t && 0 <= k < round_robin(keys, t)[p].len() ==> #[trigger] entry_from_slot(
                keys,
                t,
                p,
                k,
            ),
        forall|p1: int, k1: int, p2: int, k2: int|
            0 <= p1 < t && 0 <= p2 < t && 0 <= k1 < round_robin(keys, t)[p1].len() && 0 <= k2
                < round_robin(keys, t)[p2].len() && (p1 != p2 || k1 != k2) ==> #[trigger] (p1 + k1
                * t) != #[trigger] (p2 + k2 * t),
{
    lemma_round_robin_permutes(keys, t);
    lemma_every_position_assigned(keys, t);
    lemma_every_entry_from_its_slot(keys, t);
    assert forall|p1: int, k1: int, p2: int, k2: int|
        0 <= p1 < t && 0 <= p2 < t && 0 <= k1 < round_robin(keys, t)[p1].len() && 0 <= k2
            < round_robin(keys, t)[p2].len() && (p1 != p2 || k1 != k2) implies #[trigger] (p1 + k1
        * t) != #[trigger] (p2 + k2 * t) by {
        if p1 + k1 * t == p2 + k2 * t {
            lemma_slots_distinct(t as int, p1, k1, p2, k2);
        }
    }
}

/// The key at position `i` stands at place `i / t` of partition `i % t`.
pub open spec fn position_assigned<T>(keys: Seq<T>, t: nat, i: int) -> bool {
    let parts = round_robin(keys, t);
    0 <= i / (t as int) < parts[i % (t as int)].len() && parts[i % (t as int)][i / (t as int)]
        == keys[i]
}

/// Place `k` of partition `p` holds the key at position `p + k * t`.
pub open spec fn entry_from_slot<T>(keys: Seq<T>, t: nat, p: int, k: int) -> bool {
    p + k * t < keys.len() && round_robin(keys, t)[p][k] == keys[p + k * t]
}

proof fn lemma_every_position_assigned<T>(keys: Seq<T>, t: nat)
    requires
        t >= 1,
    ensures
        forall|i: int| 0 <= i < keys.len() ==> #[trigger] position_assigned(keys, t, i),
{
    assert forall|i: int| 0 <= i < keys.len() implies #[trigger] position_assigned(keys, t, i) by {
        lemma_position_in_slot(keys.len() as int, t as int, i);
    }
}

proof fn lemma_every_entry_from_its_slot<T>(keys: Seq<T>, t: nat)
    requires
        t >= 1,
    ensures
        forall|p: int, k: int|
            0 <= p < t && 0 <= k < round_robin(keys, t)[p].len() ==> #[trigger] entry_from_slot(
                keys,
                t,
                p,
                k,
            ),
{
    assert forall|p: int, k: int| 0 <= p < t && 0 <= k < round_robin(keys, t)[p].len() implies #[trigger] entry_from_slot(keys, t, p, k) by {
        lemma_slot_in_range(keys.len() as int, t as int, p, k);
    }
}

/// The keys handed to workers do not depend on how many workers there are:
/// for any two worker counts the partitions hold exactly the input keys.
pub proof fn lemma_worker_count_irrelevant<T>(keys: Seq<T>, t1: nat, t2: nat)
    requires
        t1 >= 1,
        t2 >= 1,
    ensures
        assigned(round_robin(keys, t1)) == keys.to_set(),
        assigned(round_robin(keys, t1)) == assigned(round_robin(keys, t2)),
{
    lemma_assigned_is_keys(keys, t1);
    lemma_assigned_is_keys(keys, t2);
}

proof fn lemma_assigned_is_keys<T>(keys: Seq<T>, t: nat)
    requires
        t >= 1,
    ensures
        assigned(round_robin(keys, t)) == keys.to_set(),
{
    lemma_round_robin_partitions(keys, t);
    let parts = round_robin(keys, t);
    let ti = t as int;
    assert forall|x: T| assigned(parts).contains(x) <==> keys.to_set().contains(x) by {
        if assigned(parts).contains(x) {
            let (p, k) = choose|p: int, k: int|
                0 <= p < parts.len() && 0 <= k < parts[p].len() && #[trigger] parts[p][k] == x;
            assert(entry_from_slot(keys, t, p, k));
            assert(keys[p + k * t] == x);
            assert(keys.contains(x));
        }
        if keys.to_set().contains(x) {
            assert(keys.contains(x));
            let i = choose|i: int| 0 <= i < keys.len() && keys[i] == x;
            assert(position_assigned(keys, t, i));
            assert(parts[i % ti][i / ti] == x);
        }
    }
    assert(assigned(parts) =~= keys.to_set());
}

/// Everything the partitions hold, counted with multiplicity.
pub open spec fn contents<T>(parts: Seq<Seq<T>>) -> Multiset<T>
    decreases parts.len(),
{
    if parts.len() == 0 {
        Multiset::empty()
    } else {
        contents(parts.drop_last()).add(parts.last().to_multiset())
    }
}

proof fn lemma_contents_of_empties<T>(parts: Seq<Seq<T>>)
    requires
        forall|p: int| 0 <= p < parts.len() ==> #[trigger] parts[p].len() == 0,
    ensures
        contents(parts) =~= Multiset::empty(),
    decreases parts.len(),
{
    broadcast use vstd::multiset::group_multiset_axioms;
    if parts.len() > 0 {
        lemma_contents_of_empties(parts.drop_last());
        assert(parts.last() =~= Seq::<T>::empty());
        assert(Seq::<T>::empty().to_multiset() =~= Multiset::empty()) by {
            broadcast use vstd::seq_lib::group_to_multiset_ensures;
        }
    }
}

proof fn lemma_contents_push_into<T>(parts: Seq<Seq<T>>, p: int, x: T)
    requires
        0 <= p < parts.len(),
    ensures
        contents(parts.update(p, parts[p].push(x))) =~= contents(parts).insert(x),
    decreases parts.len(),
{
    broadcast use vstd::multiset::group_multiset_axioms;
    broadcast use vstd::seq_lib::to_multiset_build;
    let q = parts.update(p, parts[p].push(x));
    if p == parts.len() - 1 {
        assert(q.drop_last() =~= parts.drop_last());
        assert(q.last() == parts.last().push(x));
    } else {
        lemma_contents_push_into(parts.drop_last(), p, x);
        assert(q.drop_last() =~= parts.drop_last().update(p, parts.drop_last()[p].push(x)));
        assert(q.last() == parts.last());
    }
}

proof fn lemma_round_robin_push<T>(keys: Seq<T>, x: T, t: nat)
    requires
        t >= 1,
    ensures
        round_robin(keys.push(x), t) =~= round_robin(keys, t).update(
            (keys.len() % t) as int,
            round_robin(keys, t)[(keys.len() % t) as int].push(x),
        ),
{
    let n = keys.len() as int;
    let ti = t as int;
    let m = n % ti;
    let d = n / ti;
    lemma_fundamental_div_mod(n, ti);
    if m + 1 < ti {
        assert(n + 1 == d * ti + (m + 1));
        lemma_fundamental_div_mod_converse(n + 1, ti, d, m + 1);
    } else {
        assert(n + 1 == (d + 1) * ti + 0) by (nonlinear_arith)
            requires
                n == ti * d + m,
                m + 1 == ti,
        ;
        lemma_fundamental_div_mod_converse(n + 1, ti, d + 1, 0);
    }
    let a = round_robin(keys.push(x), t);
    let b = round_robin(keys, t).update(m, round_robin(keys, t)[m].push(x));
    assert forall|q: int| 0 <= q < ti implies #[trigger] a[q] =~= b[q] by {
        assert(a[q].len() == b[q].len());
        assert forall|k: int| 0 <= k < a[q].len() implies a[q][k] == b[q][k] by {
            if k < part_len(n as nat, t, q as nat) {
                lemma_slot_in_range(n, ti, q, k);
            } else {
                assert(q == m && k == d);
                assert(q + k * ti == n) by (nonlinear_arith)
                    requires
                        n == ti * d + m,
                        q == m,
                        k == d,
                ;
            }
        }
    }
}

/// The partitions hold exactly the keys, each as often as it occurs: their
/// union is a permutation of the key sequence.
pub proof fn lemma_round_robin_permutes<T>(keys: Seq<T>, t: nat)
    requires
        t >= 1,
    ensures
        contents(round_robin(keys, t)) =~= keys.to_multiset(),
        contents(round_robin(keys, t)).len() == keys.len(),
    decreases keys.len(),
{
    broadcast use vstd::seq_lib::group_to_multiset_ensures;
    if keys.len() == 0 {
        lemma_contents_of_empties(round_robin(keys, t));
    } else {
        let init = keys.drop_last();
        let x = keys.last();
        assert(keys =~= init.push(x));
        lemma_round_robin_permutes(init, t);
        lemma_round_robin_push(init, x, t);
        let p = (init.len() % t) as int;
        lemma_contents_push_into(round_robin(init, t), p, x);
    }
}

/// The multiset of keys handed to workers does not depend on the worker
/// count: running with any two counts assigns the same keys, each as often.
pub proof fn lemma_worker_count_keeps_contents<T>(keys: Seq<T>, t1: nat, t2: nat)
    requires
        t1 >= 1,
        t2 >= 1,
    ensures
        contents(round_robin(keys, t1)) == contents(round_robin(keys, t2)),
{
    lemma_round_robin_permutes(keys, t1);
    lemma_round_robin_permutes(keys, t2);
}

} // verus!

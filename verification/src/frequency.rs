//! Which pair of neighbouring tokens is the most frequent one.
use vstd::prelude::*;
use vstd::seq_lib::group_to_multiset_ensures;

use crate::pairs::{Pair, PairMap};

verus! {

/// How often a pair is among `ps`.
pub open spec fn frequency(ps: Seq<Pair>, p: Pair) -> nat {
    ps.to_multiset().count(p)
}

/// Whether a pair is among `ps` and no pair is there more often.
pub open spec fn is_most_frequent(ps: Seq<Pair>, p: Pair) -> bool {
    &&& ps.contains(p)
    &&& forall|q: Pair| #[trigger] frequency(ps, q) <= frequency(ps, p)
}

/// Whether `ps[i]` is the first of the most frequent pairs.
pub open spec fn leads_at(ps: Seq<Pair>, i: int) -> bool {
    &&& 0 <= i < ps.len()
    &&& is_most_frequent(ps, ps[i])
    &&& forall|j: int| 0 <= j < i ==> !is_most_frequent(ps, #[trigger] ps[j])
}

/// Of the most frequent pairs the one that comes first.
pub open spec fn leader(ps: Seq<Pair>) -> Pair {
    ps[choose|i: int| leads_at(ps, i)]
}

/// The pairs of `ps` in the order in which they come first.
spec fn firsts(ps: Seq<Pair>) -> Seq<Pair>
    decreases ps.len(),
{
    if ps.len() == 0 {
        Seq::empty()
    } else {
        let before = firsts(ps.drop_last());
        if before.contains(ps.last()) {
            before
        } else {
            before.push(ps.last())
        }
    }
}

proof fn lemma_firsts_contains(ps: Seq<Pair>, p: Pair)
    ensures
        firsts(ps).contains(p) <==> ps.contains(p),
    decreases ps.len(),
{
    if ps.len() > 0 {
        let before = firsts(ps.drop_last());
        lemma_firsts_contains(ps.drop_last(), p);
        assert(ps[ps.len() - 1] == ps.last());
        if ps.contains(p) && p != ps.last() {
            let i = choose|i: int| 0 <= i < ps.len() && ps[i] == p;
            assert(ps.drop_last()[i] == p);
        }
        if ps.drop_last().contains(p) {
            let i = choose|i: int| 0 <= i < ps.drop_last().len() && ps.drop_last()[i] == p;
            assert(ps[i] == p);
        }
        if !before.contains(ps.last()) {
            assert(firsts(ps)[before.len() as int] == ps.last());
            if before.contains(p) {
                let i = choose|i: int| 0 <= i < before.len() && before[i] == p;
                assert(firsts(ps)[i] == p);
            }
        }
    }
}

/// Where the pair number `a` of `firsts` comes first; in front of it are only pairs of
/// smaller numbers.
proof fn lemma_firsts_place(ps: Seq<Pair>, a: int) -> (i: int)
    requires
        0 <= a < firsts(ps).len(),
    ensures
        0 <= i < ps.len(),
        ps[i] == firsts(ps)[a],
        forall|j: int| 0 <= j < i ==> firsts(ps).take(a).contains(#[trigger] ps[j]),
    decreases ps.len(),
{
    let init = ps.drop_last();
    let before = firsts(init);
    if a < before.len() {
        let i = lemma_firsts_place(init, a);
        assert(firsts(ps).take(a) =~= before.take(a));
        assert forall|j: int| 0 <= j < i implies firsts(ps).take(a).contains(#[trigger] ps[j]) by {
            assert(init[j] == ps[j]);
        }
        i
    } else {
        assert(firsts(ps).take(a) =~= before);
        assert forall|j: int| 0 <= j < ps.len() - 1 implies firsts(ps).take(a).contains(
            #[trigger] ps[j],
        ) by {
            assert(init[j] == ps[j]);
            lemma_firsts_contains(init, ps[j]);
        }
        ps.len() - 1
    }
}

/// At most one place leads.
proof fn lemma_lead_unique(ps: Seq<Pair>, i: int, k: int)
    requires
        leads_at(ps, i),
        leads_at(ps, k),
    ensures
        i == k,
{
    if i < k {
        assert(!is_most_frequent(ps, ps[i]));
    }
    if k < i {
        assert(!is_most_frequent(ps, ps[k]));
    }
}

/// One of the first `n` places holds a pair that is at least as frequent as the pairs at
/// the others.
proof fn lemma_max_exists(ps: Seq<Pair>, n: int) -> (a: int)
    requires
        0 < n <= ps.len(),
    ensures
        0 <= a < n,
        forall|j: int| 0 <= j < n ==> #[trigger] frequency(ps, ps[j]) <= frequency(ps, ps[a]),
    decreases n,
{
    if n == 1 {
        0
    } else {
        let a = lemma_max_exists(ps, n - 1);
        if frequency(ps, ps[n - 1]) > frequency(ps, ps[a]) {
            n - 1
        } else {
            a
        }
    }
}

proof fn lemma_first_lead(ps: Seq<Pair>, a: int) -> (i: int)
    requires
        0 <= a < ps.len(),
        is_most_frequent(ps, ps[a]),
    ensures
        leads_at(ps, i),
    decreases a,
{
    if forall|j: int| 0 <= j < a ==> !is_most_frequent(ps, #[trigger] ps[j]) {
        a
    } else {
        let b = choose|j: int| 0 <= j < a && is_most_frequent(ps, #[trigger] ps[j]);
        lemma_first_lead(ps, b)
    }
}

/// Where there is a pair, the leader is one of the most frequent pairs.
pub proof fn law_leader_is_most_frequent(ps: Seq<Pair>)
    requires
        ps.len() > 0,
    ensures
        exists|i: int| leads_at(ps, i),
        is_most_frequent(ps, leader(ps)),
{
    broadcast use group_to_multiset_ensures;

    let a = lemma_max_exists(ps, ps.len() as int);
    assert forall|q: Pair| #[trigger] frequency(ps, q) <= frequency(ps, ps[a]) by {
        if ps.contains(q) {
            let j = choose|j: int| 0 <= j < ps.len() && ps[j] == q;
            assert(frequency(ps, ps[j]) <= frequency(ps, ps[a]));
        }
    }
    let i = lemma_first_lead(ps, a);
    assert(leads_at(ps, i));
}

/// How often each pair of `ps` is there.
fn count_pairs(ps: &Vec<Pair>) -> (counts: PairMap)
    ensures
        counts.inv(),
        counts.key_order() == firsts(ps@),
        forall|p: Pair| #[trigger]
            counts@.contains_key(p) ==> counts@[p] == frequency(ps@, p),
{
    broadcast use group_to_multiset_ensures;

    let mut counts = PairMap::new();
    let mut i: usize = 0;
    while i < ps.len()
        invariant
            i <= ps@.len(),
            counts.inv(),
            counts.key_order() == firsts(ps@.take(i as int)),
            forall|p: Pair| #[trigger]
                counts@.contains_key(p) ==> counts@[p] == frequency(ps@.take(i as int), p),
        decreases ps.len() - i,
    {
        let p: Pair = ps[i];
        let ghost seen = ps@.take(i as int);
        let ghost next = ps@.take(i + 1);
        proof {
            broadcast use group_to_multiset_ensures;

            assert(next =~= seen.push(p));
            assert(next.drop_last() =~= seen);
            assert(next.to_multiset() == seen.to_multiset().insert(p));
            lemma_firsts_contains(seen, p);
            assert(counts.key_order().contains(p) <==> counts@.contains_key(p));
            assert(frequency(seen, p) <= seen.to_multiset().len());
        }
        let ghost before = counts@;
        match counts.get(p) {
            Some(n) => {
                counts.insert(p, n + 1);
            },
            None => {
                counts.insert(p, 1);
            },
        }
        assert forall|q: Pair| #[trigger] counts@.contains_key(q) implies counts@[q] == frequency(
            next,
            q,
        ) by {
            if q != p {
                assert(before.contains_key(q));
            }
        }
        i += 1;
    }
    assert(ps@.take(ps@.len() as int) =~= ps@);
    counts
}

/// Of the most frequent pairs the one that comes first.
pub fn most_frequent_pair(ps: &Vec<Pair>) -> (p: Pair)
    requires
        ps@.len() > 0,
    ensures
        p == leader(ps@),
{
    broadcast use group_to_multiset_ensures;

    let counts = count_pairs(ps);
    let ghost order = counts.key_order();
    proof {
        lemma_firsts_contains(ps@, ps@[0]);
        assert(ps@.contains(ps@[0]));
        assert(order.contains(ps@[0]));
    }
    let mut best: Pair = counts.key(0);
    let ghost mut a: int = 0;
    assert(order.contains(order[0]));
    let mut best_count: usize = match counts.get(best) {
        Some(n) => n,
        None => 0,
    };
    let mut i: usize = 1;
    while i < counts.len()
        invariant
            counts.inv(),
            order == counts.key_order(),
            forall|p: Pair| #[trigger]
                counts@.contains_key(p) ==> counts@[p] == frequency(ps@, p),
            0 <= a < i <= order.len(),
            best == order[a],
            best_count == frequency(ps@, best),
            forall|b: int|
                0 <= b < i ==> #[trigger] frequency(ps@, order[b]) <= frequency(ps@, best),
            forall|b: int|
                0 <= b < a ==> #[trigger] frequency(ps@, order[b]) < frequency(ps@, best),
        decreases order.len() - i,
    {
        let p: Pair = counts.key(i);
        assert(order.contains(p));
        let n: usize = match counts.get(p) {
            Some(n) => n,
            None => 0,
        };
        if n > best_count {
            best = p;
            best_count = n;
            proof {
                a = i as int;
            }
        }
        i += 1;
    }
    proof {
        let k = lemma_firsts_place(ps@, a);
        assert forall|q: Pair| #[trigger] frequency(ps@, q) <= frequency(ps@, best) by {
            if ps@.contains(q) {
                lemma_firsts_contains(ps@, q);
                let b = choose|b: int| 0 <= b < order.len() && order[b] == q;
                assert(frequency(ps@, order[b]) <= frequency(ps@, best));
            }
        }
        assert(ps@[k] == best);
        assert(is_most_frequent(ps@, best));
        assert forall|j: int| 0 <= j < k implies !is_most_frequent(ps@, #[trigger] ps@[j]) by {
            let b = choose|b: int| 0 <= b < order.take(a).len() && order.take(a)[b] == ps@[j];
            assert(order[b] == ps@[j]);
            assert(frequency(ps@, order[b]) < frequency(ps@, best));
        }
        assert(leads_at(ps@, k));
        let l = choose|i: int| leads_at(ps@, i);
        lemma_lead_unique(ps@, k, l);
    }
    best
}

} // verus!

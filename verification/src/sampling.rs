//! Choosing the next token: ranking by probability, the nucleus, and the draw.
use vstd::prelude::*;

verus! {

/// Whether token `a` ranks before token `b`: by the greater key, and at equal keys by the
/// smaller id.
pub open spec fn ranks_before(keys: Seq<u32>, a: usize, b: usize) -> bool {
    keys[a as int] > keys[b as int] || (keys[a as int] == keys[b as int] && a < b)
}

/// Whether `r` lists the ids from `lo` up to `hi`, each once, in the order of their ranks.
pub open spec fn is_ranking_of(keys: Seq<u32>, lo: int, hi: int, r: Seq<usize>) -> bool {
    &&& r.len() == hi - lo
    &&& forall|i: int| 0 <= i < r.len() ==> lo <= (#[trigger] r[i]) < hi
    &&& forall|i: int, j: int|
        0 <= i < j < r.len() ==> ranks_before(keys, #[trigger] r[i], #[trigger] r[j])
    &&& forall|t: usize| lo <= t < hi ==> #[trigger] r.contains(t)
}

/// Whether `r` lists all ids of `keys`, each once, in the order of their ranks.
pub open spec fn is_ranking(keys: Seq<u32>, r: Seq<usize>) -> bool {
    is_ranking_of(keys, 0, keys.len() as int, r)
}

/// There is only one ranking.
pub proof fn law_ranking_is_unique(keys: Seq<u32>, r: Seq<usize>, s: Seq<usize>)
    requires
        is_ranking(keys, r),
        is_ranking(keys, s),
    ensures
        r == s,
{
    assert forall|i: int| 0 <= i < r.len() implies r[i] == s[i] by {
        lemma_same_prefix(keys, r, s, i + 1);
    }
    assert(r =~= s);
}

proof fn lemma_same_prefix(keys: Seq<u32>, r: Seq<usize>, s: Seq<usize>, n: int)
    requires
        is_ranking(keys, r),
        is_ranking(keys, s),
        0 <= n <= r.len(),
    ensures
        forall|i: int| 0 <= i < n ==> r[i] == #[trigger] s[i],
    decreases n,
{
    if n > 0 {
        lemma_same_prefix(keys, r, s, n - 1);
        let k = n - 1;
        if r[k] != s[k] {
            assert(s.contains(r[k]));
            let a = choose|a: int| 0 <= a < s.len() && s[a] == r[k];
            assert(r.contains(s[k]));
            let b = choose|b: int| 0 <= b < r.len() && r[b] == s[k];
            if a < k {
                assert(r[a] == s[a]);
                assert(ranks_before(keys, r[a], r[k]));
            }
            if b < k {
                assert(r[b] == s[b]);
                assert(ranks_before(keys, s[b], s[k]));
            }
            assert(ranks_before(keys, s[k], s[a]));
            assert(ranks_before(keys, r[k], r[b]));
        }
    }
}

/// Merges two rankings of neighbouring ranges.
fn merge_rankings(keys: &Vec<u32>, a: Vec<usize>, b: Vec<usize>, Ghost(lo): Ghost<int>, Ghost(
    mid,
): Ghost<int>, Ghost(hi): Ghost<int>) -> (r: Vec<usize>)
    requires
        0 <= lo <= mid <= hi <= keys@.len(),
        is_ranking_of(keys@, lo, mid, a@),
        is_ranking_of(keys@, mid, hi, b@),
    ensures
        is_ranking_of(keys@, lo, hi, r@),
{
    let mut out: Vec<usize> = Vec::new();
    let mut i: usize = 0;
    let mut j: usize = 0;
    while i < a.len() || j < b.len()
        invariant
            0 <= lo <= mid <= hi <= keys@.len(),
            is_ranking_of(keys@, lo, mid, a@),
            is_ranking_of(keys@, mid, hi, b@),
            i <= a@.len(),
            j <= b@.len(),
            out@.len() == i + j,
            forall|k: int| 0 <= k < out@.len() ==> lo <= (#[trigger] out@[k]) < hi,
            forall|k: int, m: int|
                0 <= k < m < out@.len() ==> ranks_before(
                    keys@,
                    #[trigger] out@[k],
                    #[trigger] out@[m],
                ),
            forall|k: int, m: int|
                0 <= k < out@.len() && i <= m < a@.len() ==> ranks_before(
                    keys@,
                    #[trigger] out@[k],
                    #[trigger] a@[m],
                ),
            forall|k: int, m: int|
                0 <= k < out@.len() && j <= m < b@.len() ==> ranks_before(
                    keys@,
                    #[trigger] out@[k],
                    #[trigger] b@[m],
                ),
            forall|k: int| 0 <= k < i ==> out@.contains(#[trigger] a@[k]),
            forall|k: int| 0 <= k < j ==> out@.contains(#[trigger] b@[k]),
        decreases a.len() - i + b.len() - j,
    {
        let ghost before = out@;
        let from_b: bool = if i == a.len() {
            true
        } else if j == b.len() {
            false
        } else {
            keys[b[j]] > keys[a[i]]
        };
        let next: usize = if from_b {
            b[j]
        } else {
            a[i]
        };
        out.push(next);
        proof {
            assert(out@[before.len() as int] == next);
            assert forall|t: usize| before.contains(t) implies out@.contains(t) by {
                let k = choose|k: int| 0 <= k < before.len() && before[k] == t;
                assert(out@[k] == t);
            }
            if from_b {
                assert forall|m: int| i <= m < a@.len() implies ranks_before(
                    keys@,
                    next,
                    #[trigger] a@[m],
                ) by {
                    if m > i {
                        assert(ranks_before(keys@, a@[i as int], a@[m]));
                    }
                }
                assert forall|m: int| j < m < b@.len() implies ranks_before(
                    keys@,
                    next,
                    #[trigger] b@[m],
                ) by {
                    assert(ranks_before(keys@, b@[j as int], b@[m]));
                }
            } else {
                assert forall|m: int| j <= m < b@.len() implies ranks_before(
                    keys@,
                    next,
                    #[trigger] b@[m],
                ) by {
                    assert(a@[i as int] < mid <= b@[m]);
                    if m > j {
                        assert(ranks_before(keys@, b@[j as int], b@[m]));
                    }
                }
                assert forall|m: int| i < m < a@.len() implies ranks_before(
                    keys@,
                    next,
                    #[trigger] a@[m],
                ) by {
                    assert(ranks_before(keys@, a@[i as int], a@[m]));
                }
            }
        }
        if from_b {
            j += 1;
        } else {
            i += 1;
        }
    }
    proof {
        assert forall|t: usize| lo <= t < hi implies #[trigger] out@.contains(t) by {
            if t < mid {
                assert(a@.contains(t));
                let k = choose|k: int| 0 <= k < a@.len() && a@[k] == t;
                assert(out@.contains(a@[k]));
            } else {
                assert(b@.contains(t));
                let k = choose|k: int| 0 <= k < b@.len() && b@[k] == t;
                assert(out@.contains(b@[k]));
            }
        }
    }
    out
}

/// Ranks the ids from `lo` up to `hi`.
fn rank_range(keys: &Vec<u32>, lo: usize, hi: usize) -> (r: Vec<usize>)
    requires
        lo <= hi <= keys@.len(),
    ensures
        is_ranking_of(keys@, lo as int, hi as int, r@),
    decreases hi - lo,
{
    if hi - lo == 0 {
        Vec::new()
    } else if hi - lo == 1 {
        let mut r: Vec<usize> = Vec::new();
        r.push(lo);
        assert(r@[0] == lo);
        r
    } else {
        let mid: usize = lo + (hi - lo) / 2;
        let a = rank_range(keys, lo, mid);
        let b = rank_range(keys, mid, hi);
        merge_rankings(keys, a, b, Ghost(lo as int), Ghost(mid as int), Ghost(hi as int))
    }
}

/// Ranks token ids by their keys, the greatest key first. Keys stand for probabilities:
/// a greater key for a greater probability, equal keys for equal ones.
pub fn rank_tokens(keys: &Vec<u32>) -> (r: Vec<usize>)
    ensures
        is_ranking(keys@, r@),
{
    rank_range(keys, 0, keys.len())
}

/// The number of tokens that top-k and top-p leave: those up to and with the first one at
/// which the wanted probability is reached, but at most `limit`.
pub open spec fn nucleus_len(reached: Seq<bool>, limit: nat) -> nat
    decreases limit,
{
    if limit == 0 {
        0
    } else if reached[0] {
        1
    } else {
        1 + nucleus_len(reached.drop_first(), (limit - 1) as nat)
    }
}

/// The nucleus ends at its limit or where the wanted probability is reached for the first
/// time, and is empty only where its limit is zero.
pub proof fn law_nucleus_ends_where_reached(reached: Seq<bool>, limit: nat)
    requires
        limit <= reached.len(),
    ensures
        ({
            let m = nucleus_len(reached, limit);
            &&& m <= limit
            &&& limit > 0 ==> m > 0
            &&& forall|i: int| 0 <= i < m - 1 ==> !(#[trigger] reached[i])
            &&& m < limit ==> reached[m - 1]
        }),
    decreases limit,
{
    if limit > 0 && !reached[0] {
        let rest = reached.drop_first();
        law_nucleus_ends_where_reached(rest, (limit - 1) as nat);
        let m = nucleus_len(reached, limit);
        assert forall|i: int| 0 <= i < m - 1 implies !(#[trigger] reached[i]) by {
            if i > 0 {
                assert(rest[i - 1] == reached[i]);
            }
        }
    }
}

/// The smaller one of `top_k` and the number of tokens.
pub open spec fn candidate_limit(top_k: usize, n: nat) -> nat {
    if top_k < n {
        top_k as nat
    } else {
        n
    }
}

/// The tokens to draw from: of the ranked tokens the first `top_k`, and of those no more
/// than it takes to reach the wanted probability. `reached[i]` tells whether the first
/// `i + 1` ranked tokens together reach it.
pub fn nucleus(ranked: &Vec<usize>, reached: &Vec<bool>, top_k: usize) -> (r: Vec<usize>)
    requires
        reached@.len() >= candidate_limit(top_k, ranked@.len()),
    ensures
        r@ == ranked@.take(
            nucleus_len(reached@, candidate_limit(top_k, ranked@.len())) as int,
        ),
{
    let ghost limit = candidate_limit(top_k, ranked@.len());
    assert(reached@.skip(0) =~= reached@);
    let mut valid: Vec<usize> = Vec::new();
    let mut i: usize = 0;
    while i < ranked.len() && i < top_k
        invariant
            limit == candidate_limit(top_k, ranked@.len()),
            i <= limit <= reached@.len(),
            valid@ =~= ranked@.take(i as int),
            nucleus_len(reached@, limit) == i + nucleus_len(
                reached@.skip(i as int),
                (limit - i) as nat,
            ),
        decreases ranked.len() - i,
    {
        valid.push(ranked[i]);
        assert(reached@.skip(i as int).drop_first() =~= reached@.skip(i + 1));
        if reached[i] {
            assert(valid@ =~= ranked@.take(i + 1));
            return valid;
        }
        i += 1;
    }
    valid
}

/// `SliceRandom::choose` of the crate `rand`, with the generator of `rand::thread_rng`: one
/// of the items, drawn at random, and none where there is no item.
///
/// Which of the items it is, and that all are equally likely, is not stated: the draw rests
/// on the random state of the thread.
#[verifier::external_body]
fn choose_token(tokens: &Vec<usize>) -> (r: Option<usize>)
    ensures
        match r {
            Some(t) => tokens@.contains(t),
            None => tokens@.len() == 0,
        },
{
    let mut rng = rand::thread_rng();
    rand::seq::SliceRandom::choose(tokens.as_slice(), &mut rng).copied()
}

/// The token of a draw: the one that was drawn, or token 0 where there was none.
pub fn drawn_token(choice: Option<usize>) -> (t: usize)
    ensures
        t == match choice {
            Some(c) => c,
            None => 0,
        },
{
    match choice {
        Some(c) => c,
        None => 0,
    }
}

/// Draws the next token from the nucleus of the ranked tokens.
pub fn sample_token(ranked: &Vec<usize>, reached: &Vec<bool>, top_k: usize) -> (t: usize)
    requires
        reached@.len() >= candidate_limit(top_k, ranked@.len()),
    ensures
        ({
            let m = nucleus_len(reached@, candidate_limit(top_k, ranked@.len()));
            if m == 0 {
                t == 0
            } else {
                ranked@.take(m as int).contains(t)
            }
        }),
{
    let valid = nucleus(ranked, reached, top_k);
    proof {
        law_nucleus_ends_where_reached(reached@, candidate_limit(top_k, ranked@.len()));
    }
    drawn_token(choose_token(&valid))
}

/// The tokens to draw from are the most probable ones: each ranks before every token that
/// was left out.
pub proof fn law_nucleus_is_most_probable(
    keys: Seq<u32>,
    ranked: Seq<usize>,
    m: int,
    t: usize,
    u: usize,
)
    requires
        is_ranking(keys, ranked),
        0 <= m <= ranked.len(),
        ranked.take(m).contains(t),
        u < keys.len(),
        !ranked.take(m).contains(u),
    ensures
        ranks_before(keys, t, u),
{
    let i = choose|i: int| 0 <= i < m && ranked.take(m)[i] == t;
    assert(ranked.contains(u));
    let j = choose|j: int| 0 <= j < ranked.len() && ranked[j] == u;
    if j < m {
        assert(ranked.take(m)[j] == u);
    }
    assert(ranked[i] == t);
}

/// A drawn token is one of the tokens that were ranked.
pub proof fn law_drawn_token_was_ranked(
    keys: Vec<u32>,
    ranked: Vec<usize>,
    reached: Vec<bool>,
    top_k: usize,
    t: usize,
)
    requires
        keys@.len() > 0,
        call_ensures(rank_tokens, (&keys,), ranked),
        reached@.len() >= candidate_limit(top_k, ranked@.len()),
        call_ensures(sample_token, (&ranked, &reached, top_k), t),
    ensures
        t < keys@.len(),
{
    let m = nucleus_len(reached@, candidate_limit(top_k, ranked@.len())) as int;
    law_nucleus_ends_where_reached(reached@, candidate_limit(top_k, ranked@.len()));
    if m > 0 {
        let i = choose|i: int| 0 <= i < m && ranked@.take(m)[i] == t;
        assert(ranked@[i] == t);
    }
}

} // verus!

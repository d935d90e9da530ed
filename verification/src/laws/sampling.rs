//! Of the choice of the next token.
use vstd::prelude::*;

use crate::sampling::{
    candidate_limit, drawn_token, law_nucleus_ends_where_reached, nucleus, nucleus_len,
    rank_tokens, ranks_before, sample_token,
};

verus! {

/// A ranking lists every token once, from the greatest key to the smallest, and tokens with
/// equal keys from the smallest id on.
pub proof fn law_ranking_is_by_key(keys: Vec<u32>, r: Vec<usize>)
    requires
        call_ensures(rank_tokens, (&keys,), r),
    ensures
        r@.len() == keys@.len(),
        forall|i: int| 0 <= i < r@.len() ==> (#[trigger] r@[i]) < keys@.len(),
        forall|t: usize| t < keys@.len() ==> #[trigger] r@.contains(t),
        forall|i: int, j: int|
            0 <= i < j < r@.len() ==> (keys@[#[trigger] r@[i] as int] > keys@[#[trigger] r@[j] as int]
                || (keys@[r@[i] as int] == keys@[r@[j] as int] && r@[i] < r@[j])),
{
    assert forall|i: int, j: int| 0 <= i < j < r@.len() implies (keys@[#[trigger] r@[i] as int]
        > keys@[#[trigger] r@[j] as int] || (keys@[r@[i] as int] == keys@[r@[j] as int] && r@[i]
        < r@[j])) by {
        assert(ranks_before(keys@, r@[i], r@[j]));
    }
}

/// Whether the first `m` tokens of a ranking are those to draw from: at most `top_k`, and
/// up to and with the first one at which the wanted probability is reached.
pub open spec fn cut_off_at(ranked: Seq<usize>, reached: Seq<bool>, top_k: int, m: int) -> bool {
    &&& 0 <= m <= top_k
    &&& m <= ranked.len()
    &&& forall|i: int| 0 <= i < m - 1 ==> !(#[trigger] reached[i])
    &&& m < top_k && m < ranked.len() ==> m > 0 && reached[m - 1]
}

proof fn lemma_cut_off(ranked: Seq<usize>, reached: Seq<bool>, top_k: usize)
    requires
        reached.len() >= candidate_limit(top_k, ranked.len()),
    ensures
        cut_off_at(
            ranked,
            reached,
            top_k as int,
            nucleus_len(reached, candidate_limit(top_k, ranked.len())) as int,
        ),
{
    law_nucleus_ends_where_reached(reached, candidate_limit(top_k, ranked.len()));
}

/// The tokens to draw from are the first ones of the ranking, as many as top-k and the
/// wanted probability leave.
pub proof fn law_nucleus_is_cut_off(
    ranked: Vec<usize>,
    reached: Vec<bool>,
    top_k: usize,
    r: Vec<usize>,
)
    requires
        reached@.len() >= ranked@.len() || reached@.len() >= top_k,
        call_ensures(nucleus, (&ranked, &reached, top_k), r),
    ensures
        cut_off_at(ranked@, reached@, top_k as int, r@.len() as int),
        r@ == ranked@.take(r@.len() as int),
{
    lemma_cut_off(ranked@, reached@, top_k);
}

/// A drawn token is one of those to draw from; where there is none, it is token 0.
pub proof fn law_draw_is_from_the_nucleus(
    ranked: Vec<usize>,
    reached: Vec<bool>,
    top_k: usize,
    t: usize,
)
    requires
        reached@.len() >= ranked@.len() || reached@.len() >= top_k,
        call_ensures(sample_token, (&ranked, &reached, top_k), t),
    ensures
        top_k == 0 || ranked@.len() == 0 ==> t == 0,
        top_k > 0 && ranked@.len() > 0 ==> exists|m: int, i: int| #[trigger]
            cut_off_at(ranked@, reached@, top_k as int, m) && 0 <= i < m && #[trigger] ranked@[i]
                == t,
{
    lemma_cut_off(ranked@, reached@, top_k);
    let m = nucleus_len(reached@, candidate_limit(top_k, ranked@.len())) as int;
    if m > 0 {
        let i = choose|i: int| 0 <= i < m && ranked@.take(m)[i] == t;
        assert(ranked@[i] == t);
        assert(cut_off_at(ranked@, reached@, top_k as int, m) && 0 <= i < m);
    }
}

/// What was drawn is the token; nothing drawn is token 0.
pub proof fn law_drawn_token(choice: Option<usize>, t: usize)
    requires
        call_ensures(drawn_token, (choice,), t),
    ensures
        choice matches Some(c) ==> t == c,
        choice is None ==> t == 0,
{
}

} // verus!

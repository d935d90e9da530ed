//! Of training: the first tokens, the rules and their use.
use vstd::prelude::*;
use vstd::seq_lib::group_to_multiset_ensures;

use crate::frequency::{
    frequency, is_most_frequent, law_leader_is_most_frequent, leader, leads_at, most_frequent_pair,
};
use crate::laws::text::{lemma_trimmed_to, lemma_words_lie_at, trimmed_to, words_lie_at};
use crate::learning::{
    all_pairs, corpus, id_rows, ids_in, learned, lemma_merge_shrinks, merged_row, merged_rows,
    pairs_of, sentence_tokens, size_of_rows, tokens_of_words, trained, with_corpus, word_tokens,
};
use crate::lexicon::{merged_text, without_marks, LexiconView};
use crate::pairs::Pair;
use crate::text::{is_white_space, trimmed, words};

verus! {

/// Whether `piece` is what a word adds to a row: its characters as one text each, the first
/// one with the word mark in front, and a blank behind them.
pub open spec fn piece_of_word(w: Seq<char>, piece: Seq<Seq<char>>) -> bool {
    &&& piece.len() == w.len() + 1
    &&& piece[0] == seq!['\u{120}', w[0]]
    &&& forall|j: int| 0 < j < w.len() ==> #[trigger] piece[j] == seq![w[j]]
    &&& piece[w.len() as int] == seq![' ']
}

/// Whether `row` is the row of a sentence: what its words add, one after the other.
pub open spec fn row_of_sentence(s: Seq<char>, row: Seq<Seq<char>>) -> bool {
    exists|ws: Seq<Seq<char>>, from: Seq<int>, to: Seq<int>, pieces: Seq<Seq<Seq<char>>>|
        #![trigger words_lie_at(s, ws, from, to), pieces.flatten()]
        {
            &&& words_lie_at(s, ws, from, to)
            &&& pieces.len() == ws.len()
            &&& forall|i: int| 0 <= i < ws.len() ==> piece_of_word(ws[i], #[trigger] pieces[i])
            &&& row == pieces.flatten()
        }
}

proof fn lemma_tokens_are_pieces(ws: Seq<Seq<char>>)
    ensures
        tokens_of_words(ws) == Seq::new(
            ws.len(),
            |i: int| word_tokens(ws[i]).push(seq![' ']),
        ).flatten(),
    decreases ws.len(),
{
    let pieces = Seq::new(ws.len(), |i: int| word_tokens(ws[i]).push(seq![' ']));
    if ws.len() > 0 {
        let init = ws.drop_last();
        let before = Seq::new(init.len(), |i: int| word_tokens(init[i]).push(seq![' ']));
        lemma_tokens_are_pieces(init);
        before.lemma_flatten_push(word_tokens(ws.last()).push(seq![' ']));
        assert(pieces =~= before.push(word_tokens(ws.last()).push(seq![' '])));
    }
}

proof fn lemma_sentence_row(s: Seq<char>)
    ensures
        row_of_sentence(s, sentence_tokens(s)),
{
    let t = trimmed(s);
    let (lo, hi) = lemma_trimmed_to(s);
    let ws = words(t);
    let (from0, to0) = lemma_words_lie_at(t);
    let from = Seq::new(ws.len(), |i: int| from0[i] + lo);
    let to = Seq::new(ws.len(), |i: int| to0[i] + lo);
    assert forall|k: int| 0 <= k < t.len() implies #[trigger] t[k] == s[k + lo] by {}
    assert(words_lie_at(s, ws, from, to)) by {
        assert forall|i: int|
            0 <= i < ws.len() implies 0 <= #[trigger] from[i] < to[i] <= s.len() && ws[i]
            == s.subrange(from[i], to[i]) by {
            assert(0 <= from0[i] < to0[i] <= t.len());
            assert(t.subrange(from0[i], to0[i]) =~= s.subrange(from[i], to[i]));
        }
        assert forall|i: int, k: int|
            0 <= i < ws.len() && #[trigger] from[i] <= k < to[i] implies !is_white_space(
            #[trigger] s[k],
        ) by {
            assert(from0[i] <= k - lo < to0[i]);
            assert(!is_white_space(t[k - lo]));
        }
        assert forall|i: int, j: int|
            0 <= i < j < ws.len() implies #[trigger] to[i] < #[trigger] from[j] by {
            assert(to0[i] < from0[j]);
        }
        assert forall|k: int| 0 <= k < s.len() && !is_white_space(#[trigger] s[k]) implies exists|
            i: int,
        | 0 <= i < ws.len() && #[trigger] from[i] <= k < to[i] by {
            assert(lo <= k < hi);
            assert(t[k - lo] == s[k]);
            let i = choose|i: int| 0 <= i < ws.len() && #[trigger] from0[i] <= k - lo < to0[i];
            assert(from[i] <= k < to[i]);
        }
    }
    let pieces = Seq::new(ws.len(), |i: int| word_tokens(ws[i]).push(seq![' ']));
    lemma_tokens_are_pieces(ws);
    assert forall|i: int| 0 <= i < ws.len() implies piece_of_word(ws[i], #[trigger] pieces[i]) by {
        assert(0 <= from[i] < to[i]);
        assert(ws[i].len() > 0);
        assert forall|j: int| 0 < j < ws[i].len() implies #[trigger] pieces[i][j]
            == seq![ws[i][j]] by {}
    }
    assert(sentence_tokens(s) == pieces.flatten());
}

/// Each further sentence adds its row to a corpus, but one of white space alone adds
/// nothing.
pub proof fn law_corpus_is_made_of_sentences(ss: Seq<Seq<char>>, s: Seq<char>)
    ensures
        corpus(Seq::empty()) == Seq::<Seq<Seq<char>>>::empty(),
        (forall|k: int| 0 <= k < s.len() ==> is_white_space(#[trigger] s[k])) ==> corpus(ss.push(s))
            == corpus(ss),
        (exists|k: int| 0 <= k < s.len() && !is_white_space(#[trigger] s[k])) ==> exists|
            row: Seq<Seq<char>>,
        | #[trigger]
            row_of_sentence(s, row) && corpus(ss.push(s)) == corpus(ss).push(row),
{
    assert(ss.push(s).drop_last() =~= ss);
    assert(ss.push(s).last() == s);
    let (lo, hi) = lemma_trimmed_to(s);
    assert(trimmed_to(s, trimmed(s), lo, hi));
    lemma_sentence_row(s);
    assert(row_of_sentence(s, sentence_tokens(s)));
    if lo < hi {
        assert(!is_white_space(s[lo]));
    }
}

/// Whether each of the texts `all` is known to `l` or is one of those at the places `at`.
#[verifier::opaque]
pub open spec fn known_or_at(l: LexiconView, all: Seq<Seq<char>>, at: Seq<int>) -> bool {
    forall|j: int|
        0 <= j < all.len() ==> l.vocab.contains_key(#[trigger] all[j]) || exists|i: int|
            0 <= i < at.len() && all[#[trigger] at[i]] == all[j]
}

/// Whether `to` is `l` with ids for the texts `all`: those that had none get the next free
/// ids, in the order in which they come first, at the places `at`.
pub open spec fn numbered(
    l: LexiconView,
    all: Seq<Seq<char>>,
    to: LexiconView,
    at: Seq<int>,
) -> bool {
    &&& to.merges == l.merges
    &&& to.ivocab.len() == l.ivocab.len() + at.len()
    &&& forall|i: int| 0 <= i < l.ivocab.len() ==> #[trigger] to.ivocab[i] == l.ivocab[i]
    &&& forall|i: int, j: int| 0 <= i < j < at.len() ==> #[trigger] at[i] < #[trigger] at[j]
    &&& forall|i: int|
        0 <= i < at.len() ==> {
            &&& 0 <= #[trigger] at[i] < all.len()
            &&& to.ivocab[l.ivocab.len() + i] == all[at[i]]
            &&& !l.vocab.contains_key(all[at[i]])
            &&& to.vocab.contains_key(all[at[i]])
            &&& to.vocab[all[at[i]]] == (l.ivocab.len() + i) as usize
        }
    &&& forall|i: int, j: int|
        0 <= i < at.len() && 0 <= j < #[trigger] at[i] ==> #[trigger] all[j] != all[at[i]]
    &&& known_or_at(l, all, at)
    &&& forall|t: Seq<char>| #[trigger]
        l.vocab.contains_key(t) ==> to.vocab.contains_key(t) && to.vocab[t] == l.vocab[t]
    &&& forall|t: Seq<char>| #[trigger]
        to.vocab.contains_key(t) ==> l.vocab.contains_key(t) || all.contains(t)
}

proof fn lemma_numbered_known(
    l: LexiconView,
    all: Seq<Seq<char>>,
    mid: LexiconView,
    at: Seq<int>,
)
    requires
        all.len() > 0,
        numbered(l, all.drop_last(), mid, at),
        mid.vocab.contains_key(all.last()),
    ensures
        numbered(l, all, mid, at),
{
    let init = all.drop_last();
    let n = init.len() as int;
    assert forall|j: int| 0 <= j < n implies #[trigger] all[j] == init[j] by {}
    assert(known_or_at(l, all, at)) by {
        reveal(known_or_at);
        assert forall|j: int| 0 <= j < all.len() implies l.vocab.contains_key(#[trigger] all[j])
            || exists|i: int| 0 <= i < at.len() && all[#[trigger] at[i]] == all[j] by {
            if !l.vocab.contains_key(all[j]) {
                let k = if j < n {
                    j
                } else {
                    assert(init.contains(all.last()));
                    choose|k: int| 0 <= k < n && init[k] == all.last()
                };
                assert(init[k] == all[j]);
                let i = choose|i: int| 0 <= i < at.len() && init[#[trigger] at[i]] == init[k];
                assert(all[at[i]] == all[j]);
            }
        }
    }
    assert forall|t: Seq<char>| #[trigger] mid.vocab.contains_key(t) implies l.vocab.contains_key(t)
        || all.contains(t) by {
        if init.contains(t) {
            let j = choose|j: int| 0 <= j < n && init[j] == t;
            assert(all[j] == t);
        }
    }
}

proof fn lemma_numbered_fresh(
    l: LexiconView,
    all: Seq<Seq<char>>,
    mid: LexiconView,
    at: Seq<int>,
)
    requires
        all.len() > 0,
        numbered(l, all.drop_last(), mid, at),
        !mid.vocab.contains_key(all.last()),
    ensures
        numbered(l, all, mid.with_text(all.last()), at.push(all.len() - 1)),
{
    let init = all.drop_last();
    let n = init.len() as int;
    let t = all.last();
    let to = mid.with_text(t);
    let at2 = at.push(n);
    let m = at.len() as int;
    assert forall|j: int| 0 <= j < n implies #[trigger] all[j] == init[j] by {}
    assert forall|i: int| 0 <= i < m implies #[trigger] at2[i] == at[i] && 0 <= at[i] < n
        && all[at[i]] == init[at[i]] && init[at[i]] != t by {
        assert(mid.vocab.contains_key(init[at[i]]));
    }
    assert forall|j: int| 0 <= j < n implies #[trigger] all[j] != t by {
        reveal(known_or_at);
        if !l.vocab.contains_key(init[j]) {
            let i = choose|i: int| 0 <= i < at.len() && init[#[trigger] at[i]] == init[j];
            assert(mid.vocab.contains_key(init[at[i]]));
        } else {
            assert(mid.vocab.contains_key(init[j]));
        }
    }
    assert(known_or_at(l, all, at2)) by {
        reveal(known_or_at);
        assert forall|j: int| 0 <= j < all.len() implies l.vocab.contains_key(#[trigger] all[j])
            || exists|i: int| 0 <= i < at2.len() && all[#[trigger] at2[i]] == all[j] by {
            if j == n {
                assert(all[at2[m]] == all[j]);
            } else if !l.vocab.contains_key(all[j]) {
                assert(init[j] == all[j]);
                let i = choose|i: int| 0 <= i < at.len() && init[#[trigger] at[i]] == init[j];
                assert(all[at2[i]] == all[j]);
            }
        }
    }
    assert forall|u: Seq<char>| #[trigger] to.vocab.contains_key(u) implies l.vocab.contains_key(u)
        || all.contains(u) by {
        if u == t {
            assert(all[n] == t);
        } else {
            assert(mid.vocab.contains_key(u));
            if init.contains(u) {
                let j = choose|j: int| 0 <= j < n && init[j] == u;
                assert(all[j] == u);
            }
        }
    }
    assert forall|u: Seq<char>| #[trigger] l.vocab.contains_key(u) implies to.vocab.contains_key(u)
        && to.vocab[u] == l.vocab[u] by {
        assert(mid.vocab.contains_key(u));
    }
}

proof fn lemma_numbered(l: LexiconView, all: Seq<Seq<char>>) -> (at: Seq<int>)
    ensures
        numbered(l, all, l.with_texts(all), at),
    decreases all.len(),
{
    if all.len() == 0 {
        reveal(known_or_at);
        Seq::empty()
    } else {
        let init = all.drop_last();
        let mid = l.with_texts(init);
        let at = lemma_numbered(l, init);
        if mid.vocab.contains_key(all.last()) {
            lemma_numbered_known(l, all, mid, at);
            at
        } else {
            lemma_numbered_fresh(l, all, mid, at);
            at.push(all.len() - 1)
        }
    }
}

proof fn lemma_with_texts_in_turn(l: LexiconView, a: Seq<Seq<char>>, b: Seq<Seq<char>>)
    ensures
        l.with_texts(a + b) == l.with_texts(a).with_texts(b),
    decreases b.len(),
{
    if b.len() == 0 {
        assert(a + b =~= a);
    } else {
        assert((a + b).drop_last() =~= a + b.drop_last());
        lemma_with_texts_in_turn(l, a, b.drop_last());
    }
}

proof fn lemma_with_corpus_flat(l: LexiconView, c: Seq<Seq<Seq<char>>>)
    ensures
        with_corpus(l, c) == l.with_texts(c.flatten()),
    decreases c.len(),
{
    if c.len() > 0 {
        let init = c.drop_last();
        lemma_with_corpus_flat(l, init);
        init.lemma_flatten_push(c.last());
        assert(init.push(c.last()) =~= c);
        lemma_with_texts_in_turn(l, init.flatten(), c.last());
    }
}

/// Whether `ps[i]` is `p`, no pair is among `ps` more often than `p`, and every pair in
/// front of `i` is there less often.
pub open spec fn leads_from(ps: Seq<Pair>, p: Pair, i: int) -> bool {
    &&& 0 <= i < ps.len()
    &&& ps[i] == p
    &&& forall|q: Pair| #[trigger] ps.to_multiset().count(q) <= ps.to_multiset().count(p)
    &&& forall|j: int|
        0 <= j < i ==> ps.to_multiset().count(#[trigger] ps[j]) < ps.to_multiset().count(p)
}

proof fn lemma_leads_from(ps: Seq<Pair>) -> (i: int)
    requires
        ps.len() > 0,
    ensures
        leads_from(ps, leader(ps), i),
{
    broadcast use group_to_multiset_ensures;

    law_leader_is_most_frequent(ps);
    let i = choose|i: int| leads_at(ps, i);
    let p = leader(ps);
    assert forall|q: Pair| #[trigger] ps.to_multiset().count(q) <= ps.to_multiset().count(p) by {
        assert(frequency(ps, q) <= frequency(ps, p));
    }
    assert forall|j: int| 0 <= j < i implies ps.to_multiset().count(#[trigger] ps[j])
        < ps.to_multiset().count(p) by {
        if ps.to_multiset().count(ps[j]) >= ps.to_multiset().count(p) {
            assert forall|q: Pair| #[trigger] frequency(ps, q) <= frequency(ps, ps[j]) by {
                assert(frequency(ps, q) <= frequency(ps, p));
            }
            assert(ps.contains(ps[j]));
            assert(is_most_frequent(ps, ps[j]));
        }
    }
    i
}

/// The most frequent pair is one that no other exceeds; of several the first.
pub proof fn law_most_frequent_pair(ps: Vec<Pair>, p: Pair)
    requires
        ps@.len() > 0,
        call_ensures(most_frequent_pair, (&ps,), p),
    ensures
        exists|i: int| leads_from(ps@, p, i),
{
    let i = lemma_leads_from(ps@);
    assert(leads_from(ps@, p, i));
}

/// Whether `x` stands for what lies in `row` from `a` up to `b` after the use of the rule
/// that makes `id` of `p`: one id that is kept, or the ids of `p` made one. More than two
/// are made one only where `id` is the left one of the pair itself. And `x` makes no pair
/// with what follows.
pub open spec fn stands_for(
    row: Seq<usize>,
    p: Pair,
    id: usize,
    x: usize,
    a: int,
    b: int,
) -> bool {
    &&& 0 <= a < b <= row.len()
    &&& b == a + 1 ==> x == row[a]
    &&& b > a + 1 ==> x == id && row[a] == p.0
    &&& b > a + 2 ==> id == p.0
    &&& forall|k: int| a < k < b ==> #[trigger] row[k] == p.1
    &&& b < row.len() ==> !(x == p.0 && row[b] == p.1)
}

/// Whether `out` is `row` after the use of the rule that makes `id` of `p`, where `out[i]`
/// stands for what lies in `row` from `at[i]` up to `at[i + 1]`.
pub open spec fn rule_used_at(
    row: Seq<usize>,
    p: Pair,
    id: usize,
    out: Seq<usize>,
    at: Seq<int>,
) -> bool {
    &&& at.len() == out.len() + 1
    &&& at[0] == 0
    &&& at[out.len() as int] == row.len()
    &&& forall|i: int|
        0 <= i < out.len() ==> stands_for(row, p, id, #[trigger] out[i], at[i], at[i + 1])
}

proof fn lemma_rule_used_at(row: Seq<usize>, p: Pair, id: usize) -> (at: Seq<int>)
    ensures
        rule_used_at(row, p, id, merged_row(row, p, id), at),
    decreases row.len(),
{
    let out = merged_row(row, p, id);
    if row.len() == 0 {
        seq![0int]
    } else if row.len() == 1 {
        let at = seq![0int, 1int];
        assert(stands_for(row, p, id, out[0], 0, 1));
        at
    } else if (row[0], row[1]) == p {
        let shorter = seq![id] + row.skip(2);
        let at0 = lemma_rule_used_at(shorter, p, id);
        assert(out == merged_row(shorter, p, id));
        let at = Seq::new(
            at0.len(),
            |i: int|
                if i == 0 {
                    0int
                } else {
                    at0[i] + 1
                },
        );
        assert(out.len() > 0);
        assert forall|i: int| 0 <= i < out.len() implies stands_for(
            row,
            p,
            id,
            #[trigger] out[i],
            at[i],
            at[i + 1],
        ) by {
            assert(stands_for(shorter, p, id, out[i], at0[i], at0[i + 1]));
            lemma_cuts_rise(shorter, p, id, out, at0, i);
            lemma_stands_for_longer(row, p, id, out[i], at0[i], at0[i + 1]);
        }
        at
    } else {
        let rest = row.skip(1);
        let tail = merged_row(rest, p, id);
        let at0 = lemma_rule_used_at(rest, p, id);
        assert(out =~= seq![row[0]] + tail);
        let at = Seq::new(
            at0.len() + 1,
            |i: int|
                if i == 0 {
                    0int
                } else {
                    at0[i - 1] + 1
                },
        );
        assert forall|i: int| 0 <= i < out.len() implies stands_for(
            row,
            p,
            id,
            #[trigger] out[i],
            at[i],
            at[i + 1],
        ) by {
            if i > 0 {
                assert(out[i] == tail[i - 1]);
                assert(stands_for(rest, p, id, tail[i - 1], at0[i - 1], at0[i - 1 + 1]));
                lemma_stands_for_behind(row, p, id, out[i], at0[i - 1], at0[i]);
            }
        }
        at
    }
}

/// What stands for a part of a row without its first id stands for that part of the row.
proof fn lemma_stands_for_behind(row: Seq<usize>, p: Pair, id: usize, x: usize, a: int, b: int)
    requires
        row.len() > 0,
        stands_for(row.skip(1), p, id, x, a, b),
    ensures
        stands_for(row, p, id, x, a + 1, b + 1),
{
    let rest = row.skip(1);
    assert forall|k: int| a + 1 < k < b + 1 implies #[trigger] row[k] == p.1 by {
        assert(rest[k - 1] == row[k]);
    }
    assert(rest[a] == row[a + 1]);
    if b < rest.len() {
        assert(rest[b] == row[b + 1]);
    }
}

/// What stands for a part of a row whose first two ids have been made one stands for that
/// part of the row.
proof fn lemma_stands_for_longer(row: Seq<usize>, p: Pair, id: usize, x: usize, a: int, b: int)
    requires
        row.len() >= 2,
        row[0] == p.0,
        row[1] == p.1,
        stands_for(seq![id] + row.skip(2), p, id, x, a, b),
    ensures
        stands_for(
            row,
            p,
            id,
            x,
            if a == 0 {
                0
            } else {
                a + 1
            },
            b + 1,
        ),
{
    let shorter = seq![id] + row.skip(2);
    assert forall|k: int| 1 <= k < shorter.len() implies #[trigger] shorter[k] == row[k + 1] by {}
    let from = if a == 0 {
        0
    } else {
        a + 1
    };
    assert forall|k: int| from < k < b + 1 implies #[trigger] row[k] == p.1 by {
        if k > 1 {
            assert(shorter[k - 1] == row[k]);
        }
    }
    if a > 0 {
        assert(shorter[a] == row[a + 1]);
    }
    if b < shorter.len() {
        assert(shorter[b] == row[b + 1]);
    }
}

proof fn lemma_cuts_rise(
    row: Seq<usize>,
    p: Pair,
    id: usize,
    out: Seq<usize>,
    at: Seq<int>,
    i: int,
)
    requires
        rule_used_at(row, p, id, out, at),
        0 <= i <= out.len(),
    ensures
        at[i] >= i,
    decreases i,
{
    if i > 0 {
        lemma_cuts_rise(row, p, id, out, at, i - 1);
        assert(stands_for(row, p, id, out[i - 1], at[i - 1], at[i - 1 + 1]));
    }
}

/// A rule is used from left to right, throughout the row.
pub proof fn law_rule_is_used_throughout(row: Seq<usize>, p: Pair, id: usize)
    ensures
        rule_used_in(row, p, id, merged_row(row, p, id)),
{
    let at = lemma_rule_used_at(row, p, id);
    assert(rule_used_at(row, p, id, merged_row(row, p, id), at));
}

/// After the use of a rule no two neighbours are its pair, unless the token that it makes
/// is the right one of the pair.
pub proof fn law_rule_leaves_no_pair(row: Seq<usize>, p: Pair, id: usize, j: int)
    requires
        id != p.1,
        0 <= j < merged_row(row, p, id).len() - 1,
    ensures
        (merged_row(row, p, id)[j], merged_row(row, p, id)[j + 1]) != p,
{
    let at = lemma_rule_used_at(row, p, id);
    let out = merged_row(row, p, id);
    assert(stands_for(row, p, id, out[j], at[j], at[j + 1]));
    assert(stands_for(row, p, id, out[j + 1], at[j + 1], at[j + 1 + 1]));
}

/// A row with the pair `p` put back for every `id`.
pub open spec fn put_back(row: Seq<usize>, p: Pair, id: usize) -> Seq<usize> {
    Seq::new(row.len(), |i: int| pair_or_self(row[i], p, id)).flatten()
}

/// The two ids of `p` for `id`, and any other id itself.
pub open spec fn pair_or_self(x: usize, p: Pair, id: usize) -> Seq<usize> {
    if x == id {
        seq![p.0, p.1]
    } else {
        seq![x]
    }
}

/// Putting the pair back for the token that a rule has made gives the old row, where the
/// token was not in it before.
pub proof fn law_rule_can_be_undone(row: Seq<usize>, p: Pair, id: usize)
    requires
        !row.contains(id),
    ensures
        put_back(merged_row(row, p, id), p, id) == row,
{
    let out = merged_row(row, p, id);
    let at = lemma_rule_used_at(row, p, id);
    lemma_undone(row, p, id, out, at, out.len() as int);
    assert(out.take(out.len() as int) =~= out);
    assert(row.take(row.len() as int) =~= row);
}

proof fn lemma_piece(
    row: Seq<usize>,
    p: Pair,
    id: usize,
    out: Seq<usize>,
    at: Seq<int>,
    i: int,
)
    requires
        rule_used_at(row, p, id, out, at),
        !row.contains(id),
        0 <= i < out.len(),
    ensures
        0 <= at[i] < at[i + 1] <= row.len(),
        out[i] == id ==> at[i + 1] == at[i] + 2 && row[at[i]] == p.0 && row[at[i] + 1] == p.1,
        out[i] != id ==> at[i + 1] == at[i] + 1 && row[at[i]] == out[i],
{
    let a = at[i];
    let b = at[i + 1];
    assert(stands_for(row, p, id, out[i], a, b));
    assert(row.contains(row[a]));
    if b > a + 1 {
        assert(row[a + 1] == p.1);
    }
}

proof fn lemma_undone(
    row: Seq<usize>,
    p: Pair,
    id: usize,
    out: Seq<usize>,
    at: Seq<int>,
    n: int,
)
    requires
        rule_used_at(row, p, id, out, at),
        !row.contains(id),
        0 <= n <= out.len(),
    ensures
        0 <= at[n] <= row.len(),
        put_back(out.take(n), p, id) == row.take(at[n]),
    decreases n,
{
    if n == 0 {
        assert(row.take(0) =~= Seq::empty());
        assert(put_back(out.take(0), p, id) =~= Seq::empty());
    } else {
        lemma_undone(row, p, id, out, at, n - 1);
        lemma_piece(row, p, id, out, at, n - 1);
        lemma_put_back_push(out.take(n - 1), out[n - 1], p, id);
        assert(out.take(n) =~= out.take(n - 1).push(out[n - 1]));
        let a = at[n - 1];
        if out[n - 1] == id {
            assert(row.take(a + 2) =~= row.take(a) + seq![p.0, p.1]);
        } else {
            assert(row.take(a + 1) =~= row.take(a) + seq![row[a]]);
        }
    }
}

proof fn lemma_put_back_push(row: Seq<usize>, x: usize, p: Pair, id: usize)
    ensures
        put_back(row.push(x), p, id) == put_back(row, p, id) + pair_or_self(x, p, id),
{
    let before = Seq::new(row.len(), |i: int| pair_or_self(row[i], p, id));
    let longer = row.push(x);
    before.lemma_flatten_push(pair_or_self(x, p, id));
    assert(Seq::new(longer.len(), |i: int| pair_or_self(longer[i], p, id)) =~= before.push(
        pair_or_self(x, p, id),
    ));
}

/// The pairs of neighbours in some rows, one row after the other.
pub open spec fn neighbours(rows: Seq<Seq<usize>>) -> Seq<Pair> {
    Seq::new(
        rows.len(),
        |i: int|
            Seq::new(
                if rows[i].len() > 0 {
                    (rows[i].len() - 1) as nat
                } else {
                    0
                },
                |k: int| (rows[i][k], rows[i][k + 1]),
            ),
    ).flatten()
}

proof fn lemma_neighbours(rows: Seq<Seq<usize>>)
    ensures
        all_pairs(rows) == neighbours(rows),
    decreases rows.len(),
{
    let each = |rs: Seq<Seq<usize>>|
        Seq::new(
            rs.len(),
            |i: int|
                Seq::new(
                    if rs[i].len() > 0 {
                        (rs[i].len() - 1) as nat
                    } else {
                        0
                    },
                    |k: int| (rs[i][k], rs[i][k + 1]),
                ),
        );
    if rows.len() > 0 {
        let init = rows.drop_last();
        lemma_neighbours(init);
        assert(each(rows).last() =~= pairs_of(rows.last()));
        assert(each(rows).drop_last() =~~= each(init));
        assert(each(rows) =~= each(init).push(pairs_of(rows.last())));
        each(init).lemma_flatten_push(pairs_of(rows.last()));
    }
}

/// Whether `t` is the text `left` with the text `right` behind it, without the word marks
/// at the start of `right`.
pub open spec fn joins(left: Seq<char>, right: Seq<char>, t: Seq<char>) -> bool {
    exists|n: int|
        {
            &&& 0 <= n <= right.len()
            &&& forall|i: int| 0 <= i < n ==> #[trigger] right[i] == '\u{120}'
            &&& n < right.len() ==> right[n] != '\u{120}'
            &&& t == left + #[trigger] right.skip(n)
        }
}

proof fn lemma_without_marks(s: Seq<char>) -> (n: int)
    ensures
        0 <= n <= s.len(),
        forall|i: int| 0 <= i < n ==> #[trigger] s[i] == '\u{120}',
        n < s.len() ==> s[n] != '\u{120}',
        without_marks(s) == s.skip(n),
    decreases s.len(),
{
    if s.len() > 0 && s[0] == '\u{120}' {
        let rest = s.drop_first();
        let n = lemma_without_marks(rest);
        assert(rest.skip(n) =~= s.skip(n + 1));
        assert forall|i: int| 0 <= i < n + 1 implies #[trigger] s[i] == '\u{120}' by {
            if i > 0 {
                assert(rest[i - 1] == s[i]);
            }
        }
        n + 1
    } else {
        assert(s.skip(0) =~= s);
        0
    }
}

/// The text of a new token is that of the two that it is made of, but for the word marks at
/// the start of the right one.
pub proof fn law_rule_joins_the_texts(left: Seq<char>, right: Seq<char>)
    ensures
        joins(left, right, merged_text(left, right)),
{
    let n = lemma_without_marks(right);
    assert(merged_text(left, right) == left + right.skip(n));
}

/// Whether `l2` is `l` with the rule that makes the token of the text `t` of `p`; the text
/// keeps its id or gets the next free one.
pub open spec fn rule_added(l: LexiconView, p: Pair, t: Seq<char>, l2: LexiconView) -> bool {
    &&& joins(l.ivocab[p.0 as int], l.ivocab[p.1 as int], t)
    &&& if l.vocab.contains_key(t) {
        l2.vocab == l.vocab && l2.ivocab == l.ivocab
    } else {
        l2.vocab == l.vocab.insert(t, l.ivocab.len() as usize) && l2.ivocab == l.ivocab.push(t)
    }
    &&& l2.merges == l.merges.insert(p, l2.vocab[t])
}

/// Whether `rows2` is `rows` after the use of the rule that makes `id` of `p`, in every row.
pub open spec fn rule_used(
    rows: Seq<Seq<usize>>,
    p: Pair,
    id: usize,
    rows2: Seq<Seq<usize>>,
) -> bool {
    &&& rows2.len() == rows.len()
    &&& forall|i: int|
        0 <= i < rows.len() ==> rule_used_in(rows[i], p, id, #[trigger] rows2[i])
}

/// Whether `out` is `row` after the use of the rule that makes `id` of `p`.
pub open spec fn rule_used_in(row: Seq<usize>, p: Pair, id: usize, out: Seq<usize>) -> bool {
    exists|at: Seq<int>| rule_used_at(row, p, id, out, at)
}

/// Whether learning the rule for `p` turns `l` and `rows` into `l2` and `rows2`: fewer than
/// `target` texts are known and `p` leads the pairs of neighbours; the rule is added, and
/// used in every row.
pub open spec fn learns(
    target: nat,
    l: LexiconView,
    rows: Seq<Seq<usize>>,
    p: Pair,
    l2: LexiconView,
    rows2: Seq<Seq<usize>>,
) -> bool {
    &&& l.vocab.len() < target
    &&& exists|i: int| leads_from(neighbours(rows), p, i)
    &&& exists|t: Seq<char>| #[trigger]
        rule_added(l, p, t, l2) && rule_used(rows, p, l2.vocab[t], rows2)
}

/// Whether `ls` and `rows` are what one rule after the other, for the pairs `ps`, makes of
/// the first of them. There is a next rule as long as fewer than `target` texts are known
/// and there are neighbours.
pub open spec fn learned_in_turn(
    ls: Seq<LexiconView>,
    rows: Seq<Seq<Seq<usize>>>,
    ps: Seq<Pair>,
    target: nat,
) -> bool {
    let n = ps.len() as int;
    &&& ls.len() == n + 1
    &&& rows.len() == n + 1
    &&& forall|i: int|
        0 <= i < n ==> learns(target, ls[i], rows[i], #[trigger] ps[i], ls[i + 1], rows[i + 1])
    &&& ls[n].vocab.len() >= target || neighbours(rows[n]).len() == 0
}

proof fn lemma_learns(target: nat, l: LexiconView, rows: Seq<Seq<usize>>)
    requires
        l.vocab.len() < target,
        all_pairs(rows).len() > 0,
    ensures
        ({
            let p = leader(all_pairs(rows));
            let l2 = l.with_rule(p);
            learns(target, l, rows, p, l2, merged_rows(rows, p, l2.merges[p]))
        }),
{
    let ps = all_pairs(rows);
    let p = leader(ps);
    let l2 = l.with_rule(p);
    let rows2 = merged_rows(rows, p, l2.merges[p]);
    lemma_neighbours(rows);
    let i = lemma_leads_from(ps);
    assert(leads_from(neighbours(rows), p, i));
    let left = l.ivocab[p.0 as int];
    let right = l.ivocab[p.1 as int];
    let t = merged_text(left, right);
    law_rule_joins_the_texts(left, right);
    assert(joins(left, right, t));
    assert(l2.merges[p] == l2.vocab[t]);
    assert(rule_added(l, p, t, l2));
    assert forall|i: int| 0 <= i < rows.len() implies rule_used_in(
        rows[i],
        p,
        l2.vocab[t],
        #[trigger] rows2[i],
    ) by {
        law_rule_is_used_throughout(rows[i], p, l2.vocab[t]);
    }
    assert(rule_used(rows, p, l2.vocab[t], rows2));
}

proof fn lemma_learned_in_turn(l: LexiconView, rows: Seq<Seq<usize>>, target: nat) -> (r: (
    Seq<LexiconView>,
    Seq<Seq<Seq<usize>>>,
    Seq<Pair>,
))
    ensures
        learned_in_turn(r.0, r.1, r.2, target),
        r.0[0] == l,
        r.1[0] == rows,
        r.0.last() == learned(l, rows, target).0,
        r.1.last() == learned(l, rows, target).1,
    decreases size_of_rows(rows),
{
    let ps = all_pairs(rows);
    lemma_neighbours(rows);
    if l.vocab.len() >= target || ps.len() == 0 {
        (seq![l], seq![rows], Seq::empty())
    } else {
        let p = leader(ps);
        let l2 = l.with_rule(p);
        let rows2 = merged_rows(rows, p, l2.merges[p]);
        law_leader_is_most_frequent(ps);
        lemma_merge_shrinks(rows, p, l2.merges[p]);
        let (ls, rs, qs) = lemma_learned_in_turn(l2, rows2, target);
        lemma_learns(target, l, rows);
        let ls2 = seq![l] + ls;
        let rs2 = seq![rows] + rs;
        let qs2 = seq![p] + qs;
        assert forall|i: int| 0 <= i < qs2.len() implies learns(
            target,
            ls2[i],
            rs2[i],
            #[trigger] qs2[i],
            ls2[i + 1],
            rs2[i + 1],
        ) by {
            if i > 0 {
                assert(ls2[i] == ls[i - 1] && ls2[i + 1] == ls[i - 1 + 1]);
                assert(rs2[i] == rs[i - 1] && rs2[i + 1] == rs[i - 1 + 1]);
                assert(qs2[i] == qs[i - 1]);
            }
        }
        assert(learned(l, rows, target) == learned(l2, rows2, target));
        let n = qs2.len() as int;
        assert(ls2[n] == ls[n - 1] && rs2[n] == rs[n - 1]);
        assert(learned_in_turn(ls2, rs2, qs2, target));
        assert(ls2.last() == ls.last() && rs2.last() == rs.last());
        (ls2, rs2, qs2)
    }
}

/// Training numbers the texts of the corpus, and then learns one rule after the other from
/// the rows of their ids.
pub proof fn law_training_learns_rule_by_rule(
    l: LexiconView,
    sentences: Seq<Seq<char>>,
    target: nat,
)
    ensures
        exists|
            ls: Seq<LexiconView>,
            rows: Seq<Seq<Seq<usize>>>,
            ps: Seq<Pair>,
            at: Seq<int>,
        |
            {
                &&& #[trigger] learned_in_turn(ls, rows, ps, target)
                &&& #[trigger] numbered(l, corpus(sentences).flatten(), ls[0], at)
                &&& rows[0] == Seq::new(
                    corpus(sentences).len(),
                    |i: int|
                        Seq::new(
                            corpus(sentences)[i].len(),
                            |j: int| ls[0].vocab[corpus(sentences)[i][j]],
                        ),
                )
                &&& ls.last() == trained(l, sentences, target)
            },
{
    let c = corpus(sentences);
    let start = with_corpus(l, c);
    lemma_with_corpus_flat(l, c);
    let at = lemma_numbered(l, c.flatten());
    let rows0 = id_rows(start.vocab, c);
    let (ls, rows, ps) = lemma_learned_in_turn(start, rows0, target);
    assert(rows0 =~~= Seq::new(
        c.len(),
        |i: int| Seq::new(c[i].len(), |j: int| start.vocab[c[i][j]]),
    )) by {
        assert forall|i: int| 0 <= i < c.len() implies #[trigger] rows0[i] == ids_in(
            start.vocab,
            c[i],
        ) by {}
    }
    assert(learned_in_turn(ls, rows, ps, target) && numbered(l, c.flatten(), ls[0], at));
}

} // verus!

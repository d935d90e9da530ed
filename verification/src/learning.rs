//! Learning tokens and rules from a corpus.
use vstd::prelude::*;

use crate::frequency::{law_leader_is_most_frequent, leader, most_frequent_pair};
use crate::lexicon::{
    lemma_consistent_len, lemma_with_rule, lemma_with_rule_consistent, lemma_with_text,
    lemma_with_texts, lemma_with_texts_consistent, Lexicon, LexiconView, WORD_MARK,
};
use crate::pairs::Pair;
use crate::text::{chars_of, split_words, texts, trim, trimmed, words};

verus! {

/// The first tokens of a word: its characters, the first one with the word mark.
pub open spec fn word_tokens(w: Seq<char>) -> Seq<Seq<char>> {
    Seq::new(
        w.len(),
        |i: int|
            if i == 0 {
                seq![WORD_MARK, w[0]]
            } else {
                seq![w[i]]
            },
    )
}

/// The first tokens of some words, with a blank behind each word.
pub open spec fn tokens_of_words(ws: Seq<Seq<char>>) -> Seq<Seq<char>>
    decreases ws.len(),
{
    if ws.len() == 0 {
        Seq::empty()
    } else {
        tokens_of_words(ws.drop_last()) + word_tokens(ws.last()).push(seq![' '])
    }
}

/// The first tokens of a sentence.
pub open spec fn sentence_tokens(s: Seq<char>) -> Seq<Seq<char>> {
    tokens_of_words(words(trimmed(s)))
}

/// The first tokens of each sentence that is more than white space.
pub open spec fn corpus(sentences: Seq<Seq<char>>) -> Seq<Seq<Seq<char>>>
    decreases sentences.len(),
{
    if sentences.len() == 0 {
        Seq::empty()
    } else {
        let before = corpus(sentences.drop_last());
        if trimmed(sentences.last()).len() == 0 {
            before
        } else {
            before.push(sentence_tokens(sentences.last()))
        }
    }
}

/// The lexicon in which every token of a corpus has an id, given out in the order of the
/// corpus.
pub open spec fn with_corpus(l: LexiconView, c: Seq<Seq<Seq<char>>>) -> LexiconView
    decreases c.len(),
{
    if c.len() == 0 {
        l
    } else {
        with_corpus(l, c.drop_last()).with_texts(c.last())
    }
}

/// The ids of some texts.
pub open spec fn ids_in(vocab: Map<Seq<char>, usize>, ts: Seq<Seq<char>>) -> Seq<usize> {
    Seq::new(ts.len(), |i: int| vocab[ts[i]])
}

/// A corpus by ids.
pub open spec fn id_rows(
    vocab: Map<Seq<char>, usize>,
    c: Seq<Seq<Seq<char>>>,
) -> Seq<Seq<usize>> {
    Seq::new(c.len(), |i: int| ids_in(vocab, c[i]))
}

/// The pairs of neighbours in a row.
pub open spec fn pairs_of(row: Seq<usize>) -> Seq<Pair> {
    Seq::new(
        if row.len() > 0 {
            (row.len() - 1) as nat
        } else {
            0
        },
        |i: int| (row[i], row[i + 1]),
    )
}

/// The pairs of neighbours in some rows, one row after the other.
pub open spec fn all_pairs(rows: Seq<Seq<usize>>) -> Seq<Pair>
    decreases rows.len(),
{
    if rows.len() == 0 {
        Seq::empty()
    } else {
        all_pairs(rows.drop_last()) + pairs_of(rows.last())
    }
}

/// A row in which, from left to right, the token `id` has taken the place of each `p`; the
/// token that came about so is itself compared with what follows.
pub open spec fn merged_row(row: Seq<usize>, p: Pair, id: usize) -> Seq<usize>
    decreases row.len(),
{
    if row.len() < 2 {
        row
    } else if (row[0], row[1]) == p {
        merged_row(seq![id] + row.skip(2), p, id)
    } else {
        seq![row[0]] + merged_row(row.skip(1), p, id)
    }
}

/// The rows after a merge.
pub open spec fn merged_rows(rows: Seq<Seq<usize>>, p: Pair, id: usize) -> Seq<Seq<usize>> {
    Seq::new(rows.len(), |i: int| merged_row(rows[i], p, id))
}

/// The number of tokens in some rows.
pub open spec fn size_of_rows(rows: Seq<Seq<usize>>) -> nat
    decreases rows.len(),
{
    if rows.len() == 0 {
        0
    } else {
        size_of_rows(rows.drop_last()) + rows.last().len()
    }
}

/// Learns a rule for the most frequent pair and applies it, again and again, until `target`
/// texts are known or every row has become a single token. Gives the lexicon and the rows.
pub open spec fn learned(
    l: LexiconView,
    rows: Seq<Seq<usize>>,
    target: nat,
) -> (LexiconView, Seq<Seq<usize>>)
    decreases size_of_rows(rows),
{
    let ps = all_pairs(rows);
    if l.vocab.len() >= target || ps.len() == 0 {
        (l, rows)
    } else {
        let p = leader(ps);
        let next = l.with_rule(p);
        proof {
            law_leader_is_most_frequent(ps);
            lemma_merge_shrinks(rows, p, next.merges[p]);
        }
        learned(next, merged_rows(rows, p, next.merges[p]), target)
    }
}

/// What a lexicon becomes by training on some sentences.
pub open spec fn trained(l: LexiconView, sentences: Seq<Seq<char>>, target: nat) -> LexiconView {
    let c = corpus(sentences);
    let start = with_corpus(l, c);
    learned(start, id_rows(start.vocab, c), target).0
}

/// A merge never makes a row longer, and makes it shorter where the pair is in it.
proof fn lemma_merged_row_len(row: Seq<usize>, p: Pair, id: usize)
    ensures
        merged_row(row, p, id).len() <= row.len(),
        pairs_of(row).contains(p) ==> merged_row(row, p, id).len() < row.len(),
        row.len() > 0 ==> merged_row(row, p, id).len() > 0,
    decreases row.len(),
{
    if row.len() >= 2 {
        if (row[0], row[1]) == p {
            lemma_merged_row_len(seq![id] + row.skip(2), p, id);
        } else {
            let rest = row.skip(1);
            lemma_merged_row_len(rest, p, id);
            if pairs_of(row).contains(p) {
                let i = choose|i: int| 0 <= i < pairs_of(row).len() && pairs_of(row)[i] == p;
                assert(i > 0);
                assert(pairs_of(rest)[i - 1] == p);
            }
        }
    }
}

/// A merge of a pair that occurs makes the rows smaller.
pub proof fn lemma_merge_shrinks(rows: Seq<Seq<usize>>, p: Pair, id: usize)
    ensures
        size_of_rows(merged_rows(rows, p, id)) <= size_of_rows(rows),
        all_pairs(rows).contains(p) ==> size_of_rows(merged_rows(rows, p, id)) < size_of_rows(rows),
    decreases rows.len(),
{
    if rows.len() > 0 {
        let init = rows.drop_last();
        lemma_merge_shrinks(init, p, id);
        lemma_merged_row_len(rows.last(), p, id);
        assert(merged_rows(rows, p, id).drop_last() =~= merged_rows(init, p, id));
        if all_pairs(rows).contains(p) {
            let i = choose|i: int| 0 <= i < all_pairs(rows).len() && all_pairs(rows)[i] == p;
            if i < all_pairs(init).len() {
                assert(all_pairs(init)[i] == p);
            } else {
                assert(pairs_of(rows.last())[i - all_pairs(init).len()] == p);
            }
        }
    }
}

/// The contents of a list of strings.
pub open spec fn sentence_views(sentences: Seq<&str>) -> Seq<Seq<char>> {
    Seq::new(sentences.len(), |i: int| sentences[i]@)
}

/// The contents of rows of ids.
pub open spec fn row_views(rows: Seq<Vec<usize>>) -> Seq<Seq<usize>> {
    Seq::new(rows.len(), |i: int| rows[i]@)
}

/// Whether every id in `rows` is below `n`.
spec fn rows_below(rows: Seq<Seq<usize>>, n: nat) -> bool {
    forall|i: int, j: int|
        0 <= i < rows.len() && 0 <= j < rows[i].len() ==> #[trigger] rows[i][j] < n
}

/// Whether every text of `ts` has an id.
spec fn knows(vocab: Map<Seq<char>, usize>, ts: Seq<Seq<char>>) -> bool {
    forall|i: int| 0 <= i < ts.len() ==> vocab.contains_key(#[trigger] ts[i])
}

/// Gives the text `t` an id and appends that to the row of the texts `done`.
fn add_token(l: &mut Lexicon, row: &mut Vec<usize>, t: String, Ghost(start): Ghost<LexiconView>, Ghost(
    done,
): Ghost<Seq<Seq<char>>>)
    requires
        old(l).inv(),
        old(l)@ == start.with_texts(done),
        knows(old(l)@.vocab, done),
        old(row)@ == ids_in(old(l)@.vocab, done),
    ensures
        final(l).inv(),
        final(l)@ == start.with_texts(done.push(t@)),
        knows(final(l)@.vocab, done.push(t@)),
        final(row)@ == ids_in(final(l)@.vocab, done.push(t@)),
{
    let ghost before = l@;
    proof {
        lemma_with_text(before, t@);
        assert(done.push(t@).drop_last() =~= done);
    }
    let id: usize = l.add_text(t);
    row.push(id);
    assert(row@ =~= ids_in(l@.vocab, done.push(t@)));
}

/// Gives every token of a sentence an id, and returns the row of those ids.
fn add_sentence(l: &mut Lexicon, s: &Vec<char>) -> (row: Vec<usize>)
    requires
        old(l).inv(),
    ensures
        final(l).inv(),
        final(l)@ == old(l)@.with_texts(tokens_of_words(words(s@))),
        knows(final(l)@.vocab, tokens_of_words(words(s@))),
        row@ == ids_in(final(l)@.vocab, tokens_of_words(words(s@))),
{
    let ghost start = l@;
    let ws = split_words(s);
    let ghost all = texts(ws@);
    let mut row: Vec<usize> = Vec::new();
    let mut i: usize = 0;
    assert(row@ =~= ids_in(l@.vocab, Seq::<Seq<char>>::empty()));
    while i < ws.len()
        invariant
            i <= ws@.len(),
            all == texts(ws@),
            l.inv(),
            l@ == start.with_texts(tokens_of_words(all.take(i as int))),
            knows(l@.vocab, tokens_of_words(all.take(i as int))),
            row@ == ids_in(l@.vocab, tokens_of_words(all.take(i as int))),
        decreases ws.len() - i,
    {
        let w = &ws[i];
        let ghost before = tokens_of_words(all.take(i as int));
        let ghost here = word_tokens(w@);
        let mut j: usize = 0;
        assert(before + here.take(0) =~= before);
        while j < w.len()
            invariant
                j <= w@.len(),
                here == word_tokens(w@),
                l.inv(),
                l@ == start.with_texts(before + here.take(j as int)),
                knows(l@.vocab, before + here.take(j as int)),
                row@ == ids_in(l@.vocab, before + here.take(j as int)),
            decreases w.len() - j,
        {
            let mut t = String::new();
            if j == 0 {
                t.push(WORD_MARK);
            }
            t.push(w[j]);
            assert(t@ =~= here[j as int]);
            assert((before + here.take(j as int)).push(t@) =~= before + here.take(j + 1));
            add_token(l, &mut row, t, Ghost(start), Ghost(before + here.take(j as int)));
            j += 1;
        }
        let mut blank = String::new();
        blank.push(' ');
        assert(blank@ =~= seq![' ']);
        proof {
            assert(here.take(w@.len() as int) =~= here);
            assert(all.take(i + 1).drop_last() =~= all.take(i as int));
            assert((before + here).push(seq![' ']) =~= before + here.push(seq![' ']));
            assert(tokens_of_words(all.take(i + 1)) == before + here.push(seq![' ']));
        }
        add_token(l, &mut row, blank, Ghost(start), Ghost(before + here));
        i += 1;
    }
    assert(all.take(ws@.len() as int) =~= all);
    row
}

/// Whether every text of a corpus has an id.
spec fn knows_corpus(vocab: Map<Seq<char>, usize>, c: Seq<Seq<Seq<char>>>) -> bool {
    forall|i: int| 0 <= i < c.len() ==> knows(vocab, #[trigger] c[i])
}

/// In a larger lexicon the texts of a corpus keep their ids.
proof fn lemma_rows_stable(from: LexiconView, to: LexiconView, c: Seq<Seq<Seq<char>>>)
    requires
        from.extended_by(to),
        knows_corpus(from.vocab, c),
    ensures
        knows_corpus(to.vocab, c),
        id_rows(to.vocab, c) == id_rows(from.vocab, c),
{
    assert forall|i: int| 0 <= i < c.len() implies knows(to.vocab, #[trigger] c[i]) && ids_in(
        to.vocab,
        c[i],
    ) == ids_in(from.vocab, c[i]) by {
        assert(knows(from.vocab, c[i]));
        assert(ids_in(to.vocab, c[i]) =~= ids_in(from.vocab, c[i]));
    }
    assert(id_rows(to.vocab, c) =~= id_rows(from.vocab, c));
}

/// Gives every token of a corpus an id, and returns the rows of those ids.
fn add_corpus(l: &mut Lexicon, sentences: &[&str]) -> (rows: Vec<Vec<usize>>)
    requires
        old(l).inv(),
        old(l)@.in_range(),
    ensures
        final(l).inv(),
        final(l)@.in_range(),
        final(l)@ == with_corpus(old(l)@, corpus(sentence_views(sentences@))),
        row_views(rows@) == id_rows(final(l)@.vocab, corpus(sentence_views(sentences@))),
        rows_below(row_views(rows@), final(l)@.ivocab.len()),
{
    let ghost start = l@;
    let ghost all = sentence_views(sentences@);
    let mut rows: Vec<Vec<usize>> = Vec::new();
    let mut i: usize = 0;
    assert(row_views(rows@) =~= id_rows(l@.vocab, corpus(all.take(0))));
    while i < sentences.len()
        invariant
            i <= sentences@.len(),
            all == sentence_views(sentences@),
            l.inv(),
            l@.in_range(),
            l@ == with_corpus(start, corpus(all.take(i as int))),
            knows_corpus(l@.vocab, corpus(all.take(i as int))),
            row_views(rows@) == id_rows(l@.vocab, corpus(all.take(i as int))),
        decreases sentences.len() - i,
    {
        let chars = chars_of(sentences[i]);
        let s = trim(&chars);
        assert(all.take(i + 1).drop_last() =~= all.take(i as int));
        assert(all.take(i + 1).last() == chars@);
        if s.len() > 0 {
            let ghost before = l@;
            let ghost c = corpus(all.take(i as int));
            let ghost ts = sentence_tokens(chars@);
            let ghost old_rows = row_views(rows@);
            let row = add_sentence(l, &s);
            let ghost new_row = row@;
            rows.push(row);
            proof {
                lemma_with_texts(before, ts);
                lemma_rows_stable(before, l@, c);
                assert(c.push(ts).drop_last() =~= c);
                assert(row_views(rows@) =~= old_rows.push(new_row));
                assert(row_views(rows@) =~= id_rows(l@.vocab, c.push(ts)));
            }
        }
        i += 1;
    }
    assert(all.take(sentences@.len() as int) =~= all);
    proof {
        let c = corpus(all);
        let rs = row_views(rows@);
        assert forall|a: int, b: int|
            0 <= a < rs.len() && 0 <= b < rs[a].len() implies #[trigger] rs[a][b]
            < l@.ivocab.len() by {
            assert(knows(l@.vocab, c[a]));
            assert(rs[a] == ids_in(l@.vocab, c[a]));
            assert(l@.vocab.contains_key(c[a][b]));
        }
    }
    rows
}

/// The pairs of neighbours in some rows.
fn collect_pairs(rows: &Vec<Vec<usize>>) -> (ps: Vec<Pair>)
    ensures
        ps@ == all_pairs(row_views(rows@)),
{
    let mut ps: Vec<Pair> = Vec::new();
    let ghost all = row_views(rows@);
    let mut i: usize = 0;
    while i < rows.len()
        invariant
            i <= rows@.len(),
            all == row_views(rows@),
            ps@ == all_pairs(all.take(i as int)),
        decreases rows.len() - i,
    {
        let row = &rows[i];
        let ghost before = ps@;
        let mut j: usize = 1;
        while j < row.len()
            invariant
                1 <= j,
                j <= row@.len() || (row@.len() == 0 && j == 1),
                ps@ =~= before + pairs_of(row@).take(j - 1),
            decreases row.len() - j,
        {
            ps.push((row[j - 1], row[j]));
            j += 1;
        }
        proof {
            assert(all.take(i + 1).drop_last() =~= all.take(i as int));
            assert(pairs_of(row@).take(pairs_of(row@).len() as int) =~= pairs_of(row@));
            assert(ps@ =~= before + pairs_of(row@));
        }
        i += 1;
    }
    assert(all.take(rows@.len() as int) =~= all);
    ps
}

/// Puts the token `id` in the place of each `p` in a row.
fn merge_row(row: &Vec<usize>, p: Pair, id: usize) -> (r: Vec<usize>)
    ensures
        r@ == merged_row(row@, p, id),
{
    let mut out: Vec<usize> = Vec::new();
    if row.len() == 0 {
        assert(out@ =~= row@);
        return out;
    }
    let mut head: usize = row[0];
    let mut j: usize = 1;
    assert(seq![head] + row@.skip(1) =~= row@);
    while j < row.len()
        invariant
            1 <= j <= row@.len(),
            out@ + merged_row(seq![head] + row@.skip(j as int), p, id) =~= merged_row(row@, p, id),
        decreases row.len() - j,
    {
        let next: usize = row[j];
        let ghost rest = seq![head] + row@.skip(j as int);
        let ghost done = out@;
        assert(rest[1] == next);
        assert(rest.skip(1) =~= seq![next] + row@.skip(j + 1));
        assert(rest.skip(2) =~= row@.skip(j + 1));
        if head == p.0 && next == p.1 {
            head = id;
        } else {
            out.push(head);
            assert(done + (seq![head] + merged_row(rest.skip(1), p, id)) =~= out@ + merged_row(
                rest.skip(1),
                p,
                id,
            ));
            head = next;
        }
        j += 1;
    }
    assert(seq![head] + row@.skip(j as int) =~= seq![head]);
    out.push(head);
    out
}

/// A merge brings in no id but that of the new token.
proof fn lemma_merged_row_ids(row: Seq<usize>, p: Pair, id: usize, n: nat)
    requires
        forall|j: int| 0 <= j < row.len() ==> #[trigger] row[j] < n,
        id < n,
    ensures
        forall|j: int|
            0 <= j < merged_row(row, p, id).len() ==> #[trigger] merged_row(row, p, id)[j] < n,
    decreases row.len(),
{
    if row.len() >= 2 {
        if (row[0], row[1]) == p {
            let shorter = seq![id] + row.skip(2);
            lemma_merged_row_ids(shorter, p, id, n);
            assert(merged_row(row, p, id) == merged_row(shorter, p, id));
        } else {
            let rest = merged_row(row.skip(1), p, id);
            lemma_merged_row_ids(row.skip(1), p, id, n);
            assert forall|j: int| 0 <= j < merged_row(row, p, id).len() implies #[trigger] merged_row(
                row,
                p,
                id,
            )[j] < n by {
                if j == 0 {
                    assert(row[0] < n);
                } else {
                    assert(merged_row(row, p, id)[j] == rest[j - 1]);
                }
            }
        }
    } else {
        assert(merged_row(row, p, id) == row);
    }
}

/// Every id of a pair is an id of the rows.
proof fn lemma_pairs_below(rows: Seq<Seq<usize>>, n: nat)
    requires
        rows_below(rows, n),
    ensures
        forall|i: int|
            0 <= i < all_pairs(rows).len() ==> (#[trigger] all_pairs(rows)[i]).0 < n
                && all_pairs(rows)[i].1 < n,
    decreases rows.len(),
{
    if rows.len() > 0 {
        let init = rows.drop_last();
        assert forall|i: int, j: int|
            0 <= i < init.len() && 0 <= j < init[i].len() implies #[trigger] init[i][j] < n by {
            assert(rows[i][j] < n);
        }
        lemma_pairs_below(init, n);
        let last = rows[rows.len() - 1];
        assert forall|i: int| 0 <= i < all_pairs(rows).len() implies (
        #[trigger] all_pairs(rows)[i]).0 < n && all_pairs(rows)[i].1 < n by {
            let k = i - all_pairs(init).len();
            if k >= 0 {
                assert(all_pairs(rows)[i] == pairs_of(last)[k]);
                assert(rows[rows.len() - 1][k] < n);
                assert(rows[rows.len() - 1][k + 1] < n);
            } else {
                assert(all_pairs(rows)[i] == all_pairs(init)[i]);
            }
        }
    }
}

/// Puts the token `id` in the place of each `p` in all rows.
fn merge_rows(rows: &Vec<Vec<usize>>, p: Pair, id: usize) -> (r: Vec<Vec<usize>>)
    ensures
        row_views(r@) == merged_rows(row_views(rows@), p, id),
{
    let mut out: Vec<Vec<usize>> = Vec::new();
    let mut i: usize = 0;
    while i < rows.len()
        invariant
            i <= rows@.len(),
            row_views(out@) =~= merged_rows(row_views(rows@), p, id).take(i as int),
        decreases rows.len() - i,
    {
        let ghost done = out@;
        let row = merge_row(&rows[i], p, id);
        let ghost r = row@;
        out.push(row);
        assert(row_views(out@) =~= row_views(done).push(r));
        i += 1;
    }
    out
}

/// Learns rules from rows of ids until `target` texts are known or nothing is left to
/// merge.
fn learn(l: &mut Lexicon, rows: Vec<Vec<usize>>, target: usize)
    requires
        old(l).inv(),
        old(l)@.in_range(),
        rows_below(row_views(rows@), old(l)@.ivocab.len()),
    ensures
        final(l).inv(),
        final(l)@ == learned(old(l)@, row_views(rows@), target as nat).0,
{
    let mut rows = rows;
    let ghost goal = learned(l@, row_views(rows@), target as nat).0;
    while l.vocab.len() < target
        invariant
            l.inv(),
            l@.in_range(),
            rows_below(row_views(rows@), l@.ivocab.len()),
            goal == learned(l@, row_views(rows@), target as nat).0,
        ensures
            l.inv(),
            goal == l@,
        decreases size_of_rows(row_views(rows@)),
    {
        let ps = collect_pairs(&rows);
        if ps.len() == 0 {
            break;
        }
        let p: Pair = most_frequent_pair(&ps);
        let ghost before = l@;
        let ghost old_rows = row_views(rows@);
        proof {
            law_leader_is_most_frequent(ps@);
            lemma_pairs_below(old_rows, before.ivocab.len());
            let i = choose|i: int| 0 <= i < ps@.len() && ps@[i] == p;
            assert(ps@[i] == p);
        }
        let id: usize = l.add_rule(p);
        rows = merge_rows(&rows, p, id);
        proof {
            lemma_merge_shrinks(old_rows, p, id);
            let n = l@.ivocab.len();
            lemma_with_rule(before, p);
            assert forall|i: int, j: int|
                0 <= i < row_views(rows@).len() && 0 <= j < row_views(
                    rows@,
                )[i].len() implies #[trigger] row_views(rows@)[i][j] < n by {
                assert forall|b: int| 0 <= b < old_rows[i].len() implies #[trigger] old_rows[i][b]
                    < n by {}
                lemma_merged_row_ids(old_rows[i], p, id, n);
                assert(row_views(rows@)[i] == merged_row(old_rows[i], p, id));
            }
        }
    }
}

/// Trains a lexicon on some sentences.
pub fn train_lexicon(l: &mut Lexicon, sentences: &[&str], target: usize)
    requires
        old(l).inv(),
        old(l)@.in_range(),
    ensures
        final(l).inv(),
        final(l)@ == trained(old(l)@, sentence_views(sentences@), target as nat),
{
    let rows = add_corpus(l, sentences);
    learn(l, rows, target);
}

/// A corpus extends a lexicon, keeps its ids in range and its rules, and all its tokens
/// have an id.
proof fn lemma_with_corpus(l: LexiconView, c: Seq<Seq<Seq<char>>>)
    ensures
        l.extended_by(with_corpus(l, c)),
        l.in_range() ==> with_corpus(l, c).in_range(),
        with_corpus(l, c).merges == l.merges,
        knows_corpus(with_corpus(l, c).vocab, c),
    decreases c.len(),
{
    if c.len() > 0 {
        let init = c.drop_last();
        let before = with_corpus(l, init);
        lemma_with_corpus(l, init);
        lemma_with_texts(before, c.last());
        lemma_rows_stable(before, with_corpus(l, c), init);
        assert forall|i: int| 0 <= i < c.len() implies knows(
            with_corpus(l, c).vocab,
            #[trigger] c[i],
        ) by {
            if i < init.len() {
                assert(init[i] == c[i]);
            } else {
                assert(c[i] == c.last());
            }
        }
    }
}

/// A corpus keeps a lexicon consistent.
proof fn lemma_with_corpus_consistent(l: LexiconView, c: Seq<Seq<Seq<char>>>)
    requires
        l.consistent(),
        with_corpus(l, c).ivocab.len() <= usize::MAX,
    ensures
        with_corpus(l, c).consistent(),
    decreases c.len(),
{
    if c.len() > 0 {
        let before = with_corpus(l, c.drop_last());
        lemma_with_texts(before, c.last());
        lemma_with_corpus_consistent(l, c.drop_last());
        lemma_with_texts_consistent(before, c.last());
    }
}

/// The ids of a corpus are in range.
proof fn lemma_id_rows_below(l: LexiconView, c: Seq<Seq<Seq<char>>>)
    requires
        l.in_range(),
        knows_corpus(l.vocab, c),
    ensures
        rows_below(id_rows(l.vocab, c), l.ivocab.len()),
{
    let rs = id_rows(l.vocab, c);
    assert forall|a: int, b: int|
        0 <= a < rs.len() && 0 <= b < rs[a].len() implies #[trigger] rs[a][b]
        < l.ivocab.len() by {
        assert(knows(l.vocab, c[a]));
        assert(rs[a] == ids_in(l.vocab, c[a]));
        assert(l.vocab.contains_key(c[a][b]));
    }
}

/// One rule and its use keep the ids of the rows in range.
proof fn lemma_step_below(l: LexiconView, rows: Seq<Seq<usize>>, p: Pair)
    requires
        l.in_range(),
        rows_below(rows, l.ivocab.len()),
    ensures
        rows_below(
            merged_rows(rows, p, l.with_rule(p).merges[p]),
            l.with_rule(p).ivocab.len(),
        ),
{
    let to = l.with_rule(p);
    let id = to.merges[p];
    let n = to.ivocab.len();
    let next = merged_rows(rows, p, id);
    lemma_with_rule(l, p);
    assert forall|i: int, j: int|
        0 <= i < next.len() && 0 <= j < next[i].len() implies #[trigger] next[i][j] < n by {
        assert forall|b: int| 0 <= b < rows[i].len() implies #[trigger] rows[i][b] < n by {}
        lemma_merged_row_ids(rows[i], p, id, n);
        assert(next[i] == merged_row(rows[i], p, id));
    }
}

/// The leading pair of rows in range is in range.
proof fn lemma_leader_below(rows: Seq<Seq<usize>>, n: nat)
    requires
        rows_below(rows, n),
        all_pairs(rows).len() > 0,
    ensures
        leader(all_pairs(rows)).0 < n,
        leader(all_pairs(rows)).1 < n,
{
    let ps = all_pairs(rows);
    law_leader_is_most_frequent(ps);
    lemma_pairs_below(rows, n);
    let i = choose|i: int| 0 <= i < ps.len() && ps[i] == leader(ps);
    assert(ps[i] == leader(ps));
}

/// What learning keeps, and where it stops.
proof fn lemma_learned(l: LexiconView, rows: Seq<Seq<usize>>, target: nat)
    requires
        l.in_range(),
        rows_below(rows, l.ivocab.len()),
    ensures
        l.extended_by(learned(l, rows, target).0),
        learned(l, rows, target).0.in_range(),
        learned(l, rows, target).0.vocab.len() >= target || all_pairs(
            learned(l, rows, target).1,
        ).len() == 0,
    decreases size_of_rows(rows),
{
    let ps = all_pairs(rows);
    if l.vocab.len() < target && ps.len() > 0 {
        let p = leader(ps);
        let next = l.with_rule(p);
        law_leader_is_most_frequent(ps);
        lemma_merge_shrinks(rows, p, next.merges[p]);
        lemma_with_rule(l, p);
        lemma_step_below(l, rows, p);
        lemma_learned(next, merged_rows(rows, p, next.merges[p]), target);
    }
}

/// What learning keeps of a consistent lexicon, and how far that grows.
proof fn lemma_learned_consistent(l: LexiconView, rows: Seq<Seq<usize>>, target: nat)
    requires
        l.consistent(),
        rows_below(rows, l.ivocab.len()),
        learned(l, rows, target).0.ivocab.len() <= usize::MAX,
    ensures
        learned(l, rows, target).0.consistent(),
        l.merges.submap_of(learned(l, rows, target).0.merges),
        learned(l, rows, target).0.vocab.len() <= if l.vocab.len() < target {
            target
        } else {
            l.vocab.len()
        },
    decreases size_of_rows(rows),
{
    let ps = all_pairs(rows);
    if l.vocab.len() < target && ps.len() > 0 {
        let p = leader(ps);
        let next = l.with_rule(p);
        let next_rows = merged_rows(rows, p, next.merges[p]);
        law_leader_is_most_frequent(ps);
        lemma_leader_below(rows, l.ivocab.len());
        lemma_merge_shrinks(rows, p, next.merges[p]);
        lemma_with_rule(l, p);
        lemma_step_below(l, rows, p);
        lemma_learned(next, next_rows, target);
        lemma_with_rule_consistent(l, p);
        lemma_learned_consistent(next, next_rows, target);
        lemma_consistent_len(l);
        lemma_consistent_len(next);
        assert(next.ivocab.len() <= l.ivocab.len() + 1);
        let end = learned(l, rows, target).0;
        assert(end == learned(next, next_rows, target).0);
        assert forall|q: Pair| #[trigger] l.merges.dom().contains(q) implies end.merges.dom().contains(
            q,
        ) && l.merges[q] == end.merges[q] by {
            assert(next.merges.dom().contains(q));
        }
    }
}

/// The lexicon with which learning starts, and its rows.
proof fn lemma_start(l: LexiconView, sentences: Seq<Seq<char>>)
    requires
        l.in_range(),
    ensures
        ({
            let c = corpus(sentences);
            let start = with_corpus(l, c);
            &&& l.extended_by(start)
            &&& start.in_range()
            &&& start.merges == l.merges
            &&& knows_corpus(start.vocab, c)
            &&& rows_below(id_rows(start.vocab, c), start.ivocab.len())
        }),
{
    lemma_with_corpus(l, corpus(sentences));
    lemma_id_rows_below(with_corpus(l, corpus(sentences)), corpus(sentences));
}

/// Training keeps every text with its id and every id with its text.
pub proof fn law_training_keeps_ids(l: LexiconView, sentences: Seq<Seq<char>>, target: nat)
    requires
        l.in_range(),
    ensures
        l.extended_by(trained(l, sentences, target)),
        trained(l, sentences, target).in_range(),
{
    let c = corpus(sentences);
    let start = with_corpus(l, c);
    lemma_start(l, sentences);
    lemma_learned(start, id_rows(start.vocab, c), target);
}

/// After training every token of the corpus has an id.
pub proof fn law_training_knows_the_corpus(
    l: LexiconView,
    sentences: Seq<Seq<char>>,
    target: nat,
    i: int,
    j: int,
)
    requires
        l.in_range(),
        0 <= i < corpus(sentences).len(),
        0 <= j < corpus(sentences)[i].len(),
    ensures
        trained(l, sentences, target).vocab.contains_key(corpus(sentences)[i][j]),
{
    let c = corpus(sentences);
    let start = with_corpus(l, c);
    lemma_start(l, sentences);
    lemma_learned(start, id_rows(start.vocab, c), target);
    assert(knows(start.vocab, c[i]));
    assert(start.vocab.contains_key(c[i][j]));
}

/// Training stops when it knows `target` texts, or when every row of the corpus has become
/// a single token.
pub proof fn law_training_goes_to_the_end(
    l: LexiconView,
    sentences: Seq<Seq<char>>,
    target: nat,
)
    requires
        l.in_range(),
    ensures
        ({
            let c = corpus(sentences);
            let start = with_corpus(l, c);
            let end = learned(start, id_rows(start.vocab, c), target);
            &&& trained(l, sentences, target) == end.0
            &&& end.0.vocab.len() >= target || forall|i: int|
                0 <= i < end.1.len() ==> (#[trigger] end.1[i]).len() <= 1
        }),
{
    let c = corpus(sentences);
    let start = with_corpus(l, c);
    let end = learned(start, id_rows(start.vocab, c), target);
    lemma_start(l, sentences);
    lemma_learned(start, id_rows(start.vocab, c), target);
    if all_pairs(end.1).len() == 0 {
        assert forall|i: int| 0 <= i < end.1.len() implies (#[trigger] end.1[i]).len() <= 1 by {
            lemma_no_pairs(end.1, i);
        }
    }
}

proof fn lemma_no_pairs(rows: Seq<Seq<usize>>, i: int)
    requires
        all_pairs(rows).len() == 0,
        0 <= i < rows.len(),
    ensures
        rows[i].len() <= 1,
    decreases rows.len(),
{
    if i < rows.len() - 1 {
        lemma_no_pairs(rows.drop_last(), i);
    }
}

/// Training keeps a lexicon consistent and keeps its rules. It learns no text beyond
/// `target`, but for those of the corpus itself.
///
/// The texts have to be few enough to be numbered by a `usize`.
pub proof fn law_training_keeps_consistency(
    l: LexiconView,
    sentences: Seq<Seq<char>>,
    target: nat,
)
    requires
        l.consistent(),
        trained(l, sentences, target).ivocab.len() <= usize::MAX,
    ensures
        trained(l, sentences, target).consistent(),
        l.merges.submap_of(trained(l, sentences, target).merges),
        ({
            let known = with_corpus(l, corpus(sentences)).vocab.len();
            trained(l, sentences, target).vocab.len() <= if known < target {
                target
            } else {
                known
            }
        }),
{
    let c = corpus(sentences);
    let start = with_corpus(l, c);
    lemma_start(l, sentences);
    lemma_learned(start, id_rows(start.vocab, c), target);
    lemma_with_corpus_consistent(l, c);
    lemma_learned_consistent(start, id_rows(start.vocab, c), target);
}

} // verus!

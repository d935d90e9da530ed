//! Of decoding, of new tokenizers and of stored ones.
use vstd::prelude::*;

use crate::laws::text::{
    halved_at, lemma_halved_at, lemma_halved_parts, lemma_trimmed_to, trimmed_to,
};
use crate::lexicon::lemma_consistent_len;
use crate::pairs::{map_of_entries, Pair};
use crate::text::{
    blanks_halved, is_white_space, lemma_blanks_halved_same, trim_end, trim_start, trimmed,
    with_char_replaced,
};
use crate::tokenizer::{cleaned, spelled, BpeTokenizer, TokenizerParts};
use crate::vocabulary::{entry_views, map_of_texts, string_views};

verus! {

/// The texts of some ids, one after the other; an id that has none adds nothing.
pub open spec fn texts_joined(ivocab: Seq<String>, ids: Seq<usize>) -> Seq<char> {
    Seq::new(
        ids.len(),
        |i: int|
            if ids[i] < ivocab.len() {
                ivocab[ids[i] as int]@
            } else {
                Seq::empty()
            },
    ).flatten()
}

/// A text with a blank for every word mark.
pub open spec fn marks_blanked(s: Seq<char>) -> Seq<char> {
    Seq::new(
        s.len(),
        |i: int|
            if s[i] == '\u{120}' {
                ' '
            } else {
                s[i]
            },
    )
}

proof fn lemma_spelled_joined(ivocab: Seq<String>, ids: Seq<usize>)
    ensures
        spelled(string_views(ivocab), ids) == texts_joined(ivocab, ids),
    decreases ids.len(),
{
    let each = |xs: Seq<usize>|
        Seq::new(
            xs.len(),
            |i: int|
                if xs[i] < ivocab.len() {
                    ivocab[xs[i] as int]@
                } else {
                    Seq::empty()
                },
        );
    if ids.len() > 0 {
        let init = ids.drop_last();
        let last = if ids.last() < ivocab.len() {
            ivocab[ids.last() as int]@
        } else {
            Seq::empty()
        };
        lemma_spelled_joined(ivocab, init);
        each(init).lemma_flatten_push(last);
        assert(each(ids) =~= each(init).push(last));
        assert(texts_joined(ivocab, init) + last =~= spelled(string_views(ivocab), ids));
    }
}

/// A decoded text is the texts of the ids one after the other, with a blank for every word
/// mark, then with each two blanks made one throughout, then trimmed.
pub proof fn law_decoding(t: BpeTokenizer, ids: &[usize], text: String)
    requires
        call_ensures(BpeTokenizer::decode, (&t, ids), text),
    ensures
        exists|halved: Seq<char>, at: Seq<int>, lo: int, hi: int|
            {
                &&& #[trigger] halved_at(
                    marks_blanked(texts_joined(t.lexicon.ivocab@, ids@)),
                    halved,
                    at,
                )
                &&& #[trigger] trimmed_to(halved, text@, lo, hi)
            },
{
    let joined = texts_joined(t.lexicon.ivocab@, ids@);
    lemma_spelled_joined(t.lexicon.ivocab@, ids@);
    let blanked = marks_blanked(joined);
    assert(with_char_replaced(joined, '\u{120}', ' ') =~= blanked);
    let halved = blanks_halved(blanked);
    let at = lemma_halved_at(blanked);
    let cut = lemma_trimmed_to(halved);
    assert(text@ == cleaned(joined));
    assert(halved_at(blanked, halved, at) && trimmed_to(halved, text@, cut.0, cut.1));
}

/// Words, each with a mark in front of it and a blank behind it.
pub open spec fn words_marked(ws: Seq<Seq<char>>, mark: char) -> Seq<char> {
    Seq::new(ws.len(), |i: int| (seq![mark] + ws[i]).push(' ')).flatten()
}

/// Words with one blank between each two.
pub open spec fn words_joined(ws: Seq<Seq<char>>) -> Seq<char> {
    if ws.len() == 0 {
        Seq::empty()
    } else {
        ws[0] + Seq::new((ws.len() - 1) as nat, |i: int| seq![' '] + ws[i + 1]).flatten()
    }
}

/// Whether a word is not empty and holds neither white space nor a word mark.
pub open spec fn is_plain_word(w: Seq<char>) -> bool {
    &&& w.len() > 0
    &&& forall|i: int| 0 <= i < w.len() ==> !is_white_space(#[trigger] w[i]) && w[i] != '\u{120}'
}

proof fn lemma_marked_push(ws: Seq<Seq<char>>, w: Seq<char>, mark: char)
    ensures
        words_marked(ws.push(w), mark) == words_marked(ws, mark) + (seq![mark] + w).push(' '),
{
    let each = Seq::new(ws.len(), |i: int| (seq![mark] + ws[i]).push(' '));
    let more = ws.push(w);
    each.lemma_flatten_push((seq![mark] + w).push(' '));
    assert(Seq::new(more.len(), |i: int| (seq![mark] + more[i]).push(' ')) =~= each.push(
        (seq![mark] + w).push(' '),
    ));
}

proof fn lemma_joined_push(ws: Seq<Seq<char>>, w: Seq<char>)
    requires
        ws.len() > 0,
    ensures
        words_joined(ws.push(w)) == words_joined(ws) + (seq![' '] + w),
{
    let more = ws.push(w);
    let each = Seq::new((ws.len() - 1) as nat, |i: int| seq![' '] + ws[i + 1]);
    each.lemma_flatten_push(seq![' '] + w);
    assert(Seq::new((more.len() - 1) as nat, |i: int| seq![' '] + more[i + 1]) =~= each.push(
        seq![' '] + w,
    ));
    assert(ws[0] + (each.flatten() + (seq![' '] + w)) =~= (ws[0] + each.flatten()) + (seq![' ']
        + w));
}

proof fn lemma_marks_blanked(ws: Seq<Seq<char>>)
    requires
        forall|i: int| 0 <= i < ws.len() ==> is_plain_word(#[trigger] ws[i]),
    ensures
        marks_blanked(words_marked(ws, '\u{120}')) == words_marked(ws, ' '),
    decreases ws.len(),
{
    if ws.len() > 0 {
        let init = ws.drop_last();
        let w = ws.last();
        assert(ws =~= init.push(w));
        assert forall|i: int| 0 <= i < init.len() implies is_plain_word(#[trigger] init[i]) by {
            assert(init[i] == ws[i]);
        }
        lemma_marks_blanked(init);
        lemma_marked_push(init, w, '\u{120}');
        lemma_marked_push(init, w, ' ');
        assert(is_plain_word(ws[ws.len() - 1]));
        let tail = (seq!['\u{120}'] + w).push(' ');
        assert(marks_blanked(tail) =~= (seq![' '] + w).push(' '));
        assert(marks_blanked(words_marked(init, '\u{120}') + tail) =~= marks_blanked(
            words_marked(init, '\u{120}'),
        ) + marks_blanked(tail));
    }
}

proof fn lemma_word_halved(w: Seq<char>)
    requires
        is_plain_word(w),
    ensures
        blanks_halved(w) == w,
        w[0] != ' ',
        w.last() != ' ',
{
    assert(is_white_space(' '));
    assert forall|i: int| 0 <= i < w.len() - 1 implies !(#[trigger] w[i] == ' ' && w[i + 1]
        == ' ') by {
        assert(!is_white_space(w[i]));
    }
    assert(!is_white_space(w[0]) && !is_white_space(w[w.len() - 1]));
    lemma_blanks_halved_same(w);
}

proof fn lemma_words_halved(ws: Seq<Seq<char>>)
    requires
        ws.len() > 0,
        forall|i: int| 0 <= i < ws.len() ==> is_plain_word(#[trigger] ws[i]),
    ensures
        ({
            let body = words_marked(ws, ' ').drop_last();
            &&& words_marked(ws, ' ') == body.push(' ')
            &&& body.len() > 0 && body.last() != ' '
            &&& blanks_halved(body) == seq![' '] + words_joined(ws)
            &&& words_joined(ws).len() > 0
            &&& !is_white_space(words_joined(ws)[0])
            &&& !is_white_space(words_joined(ws).last())
        }),
    decreases ws.len(),
{
    let init = ws.drop_last();
    let w = ws.last();
    let blank = seq![' '];
    assert(ws =~= init.push(w));
    assert(is_plain_word(ws[ws.len() - 1]));
    lemma_marked_push(init, w, ' ');
    lemma_word_halved(w);
    assert(!is_white_space(w[0]) && !is_white_space(w[w.len() - 1]));
    let body = words_marked(ws, ' ').drop_last();
    if init.len() == 0 {
        assert(words_marked(init, ' ') =~= Seq::empty());
        assert(body =~= blank + w);
        lemma_halved_parts(blank, w);
        assert(words_joined(ws) =~= w) by {
            assert(ws[0] == w);
            assert(Seq::new(0, |i: int| seq![' '] + ws[i + 1]).flatten() =~= Seq::<char>::empty());
        }
    } else {
        assert forall|i: int| 0 <= i < init.len() implies is_plain_word(#[trigger] init[i]) by {
            assert(init[i] == ws[i]);
        }
        lemma_words_halved(init);
        lemma_joined_push(init, w);
        let before = words_marked(init, ' ').drop_last();
        let gap = seq![' ', ' '];
        assert(body =~= before + (gap + w));
        lemma_halved_parts(before, gap + w);
        lemma_halved_parts(gap, w);
        assert(gap.skip(2) =~= Seq::empty());
        assert(blanks_halved(gap) == blank + blanks_halved(gap.skip(2)));
        assert(blanks_halved(gap.skip(2)) =~= Seq::empty());
        assert(blanks_halved(gap) =~= blank);
        assert((blank + words_joined(init)) + (blank + w) =~= blank + (words_joined(init) + (blank
            + w)));
        assert(words_joined(ws)[0] == words_joined(init)[0]);
        assert(words_joined(ws).last() == w.last());
    }
    assert(words_marked(ws, ' ') =~= body.push(' '));
    assert(body.last() == w.last());
}

/// Words that are spelled with a word mark in front and a blank behind are decoded with
/// exactly one blank between each two.
pub proof fn law_marked_words_are_decoded(
    t: BpeTokenizer,
    ids: &[usize],
    text: String,
    ws: Seq<Seq<char>>,
)
    requires
        forall|i: int| 0 <= i < ws.len() ==> is_plain_word(#[trigger] ws[i]),
        texts_joined(t.lexicon.ivocab@, ids@) == words_marked(ws, '\u{120}'),
        call_ensures(BpeTokenizer::decode, (&t, ids), text),
    ensures
        text@ == words_joined(ws),
{
    let joined = texts_joined(t.lexicon.ivocab@, ids@);
    lemma_spelled_joined(t.lexicon.ivocab@, ids@);
    assert(with_char_replaced(joined, '\u{120}', ' ') =~= marks_blanked(joined));
    lemma_marks_blanked(ws);
    let s = words_marked(ws, ' ');
    assert(text@ == trimmed(blanks_halved(s)));
    if ws.len() == 0 {
        assert(s =~= Seq::empty());
        assert(text@ =~= words_joined(ws));
    } else {
        lemma_words_halved(ws);
        let body = s.drop_last();
        let mid = words_joined(ws);
        lemma_halved_parts(body, seq![' ']);
        assert(body + seq![' '] =~= body.push(' '));
        let h = blanks_halved(s);
        assert(h =~= seq![' '] + mid.push(' '));
        assert(is_white_space(' '));
        assert(h.drop_first() =~= mid.push(' '));
        assert(trim_start(mid.push(' ')) == mid.push(' '));
        assert(trim_start(h) == mid.push(' '));
        assert(mid.push(' ').drop_last() =~= mid);
        assert(trim_end(mid) == mid);
        assert(trim_end(mid.push(' ')) == mid);
    }
}

/// A new tokenizer knows the four special texts, with the ids 0 to 3, and no rule.
pub proof fn law_new_tokenizer(t: BpeTokenizer)
    requires
        call_ensures(BpeTokenizer::new, (), t),
    ensures
        t.lexicon.ivocab@.len() == 4,
        t.lexicon.ivocab@[0]@ == "<pad>"@,
        t.lexicon.ivocab@[1]@ == "<bos>"@,
        t.lexicon.ivocab@[2]@ == "<eos>"@,
        t.lexicon.ivocab@[3]@ == "<unk>"@,
        forall|i: int|
            0 <= i < 4 ==> t@.vocab.contains_key((#[trigger] t.lexicon.ivocab@[i])@)
                && t@.vocab[t.lexicon.ivocab@[i]@] == i,
        t@.vocab.len() == 4,
        t@.merges == Map::<Pair, usize>::empty(),
        t.pad_token == 0,
        t.bos_token == 1,
        t.eos_token == 2,
        t.unk_token == 3,
{
    let v = string_views(t.lexicon.ivocab@);
    assert(v == t@.ivocab);
    assert(v.len() == 4);
    assert forall|i: int| 0 <= i < 4 implies t.lexicon.ivocab@[i]@ == #[trigger] v[i] by {}
    assert(v[0] == "<pad>"@ && v[1] == "<bos>"@ && v[2] == "<eos>"@ && v[3] == "<unk>"@);
    lemma_consistent_len(t@);
    assert forall|i: int|
        0 <= i < 4 implies t@.vocab.contains_key((#[trigger] t.lexicon.ivocab@[i])@)
        && t@.vocab[t.lexicon.ivocab@[i]@] == i by {
        assert(t@.ivocab[i] == t.lexicon.ivocab@[i]@);
    }
}

/// The stored form of a tokenizer lists every text with its id, once, every id with its
/// text, and every rule, once.
pub proof fn law_parts_of_a_tokenizer(t: BpeTokenizer, p: TokenizerParts)
    requires
        t.inv(),
        call_ensures(BpeTokenizer::to_parts, (&t,), p),
    ensures
        p.ivocab@.len() == t.lexicon.ivocab@.len(),
        forall|i: int|
            0 <= i < p.ivocab@.len() ==> (#[trigger] p.ivocab@[i])@ == t.lexicon.ivocab@[i]@,
        forall|i: int|
            0 <= i < p.vocab@.len() ==> t@.vocab.contains_key((#[trigger] p.vocab@[i]).0@)
                && t@.vocab[p.vocab@[i].0@] == p.vocab@[i].1,
        forall|i: int, j: int|
            0 <= i < j < p.vocab@.len() ==> (#[trigger] p.vocab@[i]).0@ != (
            #[trigger] p.vocab@[j]).0@,
        forall|s: Seq<char>| #[trigger]
            t@.vocab.contains_key(s) ==> exists|i: int|
                0 <= i < p.vocab@.len() && (#[trigger] p.vocab@[i]).0@ == s,
        forall|i: int|
            0 <= i < p.merges@.len() ==> t@.merges.contains_key((#[trigger] p.merges@[i]).0)
                && t@.merges[p.merges@[i].0] == p.merges@[i].1,
        forall|i: int, j: int|
            0 <= i < j < p.merges@.len() ==> (#[trigger] p.merges@[i]).0 != (
            #[trigger] p.merges@[j]).0,
        forall|q: Pair| #[trigger]
            t@.merges.contains_key(q) ==> exists|i: int|
                0 <= i < p.merges@.len() && (#[trigger] p.merges@[i]).0 == q,
{
    let ws = t.lexicon.vocab.word_order();
    let ks = t.lexicon.merges.key_order();
    let es = entry_views(p.vocab@);
    assert(string_views(p.ivocab@) == string_views(t.lexicon.ivocab@));
    assert forall|i: int| 0 <= i < p.ivocab@.len() implies (#[trigger] p.ivocab@[i])@
        == t.lexicon.ivocab@[i]@ by {
        assert(string_views(p.ivocab@)[i] == string_views(t.lexicon.ivocab@)[i]);
    }
    assert(string_views(p.ivocab@).len() == p.ivocab@.len());
    assert(es.len() == ws.len());
    assert forall|i: int| 0 <= i < p.vocab@.len() implies (#[trigger] p.vocab@[i]).0@ == ws[i]
        && p.vocab@[i].1 == t@.vocab[ws[i]] && ws.contains(ws[i]) by {
        assert(es[i] == (p.vocab@[i].0@, p.vocab@[i].1));
    }
    assert forall|s: Seq<char>| #[trigger] t@.vocab.contains_key(s) implies exists|i: int|
        0 <= i < p.vocab@.len() && (#[trigger] p.vocab@[i]).0@ == s by {
        assert(ws.contains(s));
        let i = choose|i: int| 0 <= i < ws.len() && ws[i] == s;
        assert(p.vocab@[i].0@ == s);
    }
    assert forall|i: int| 0 <= i < p.merges@.len() implies (#[trigger] p.merges@[i]).0 == ks[i]
        && p.merges@[i].1 == t@.merges[ks[i]] && ks.contains(ks[i]) by {}
    assert forall|q: Pair| #[trigger] t@.merges.contains_key(q) implies exists|i: int|
        0 <= i < p.merges@.len() && (#[trigger] p.merges@[i]).0 == q by {
        assert(ks.contains(q));
        let i = choose|i: int| 0 <= i < ks.len() && ks[i] == q;
        assert(p.merges@[i].0 == q);
    }
}

/// Whether `es[i]` is the last entry for `k`.
pub open spec fn last_entry<K>(es: Seq<(K, usize)>, k: K, i: int) -> bool {
    &&& 0 <= i < es.len()
    &&& es[i].0 == k
    &&& forall|j: int| i < j < es.len() ==> (#[trigger] es[j]).0 != k
}

proof fn lemma_map_of_texts_last(es: Seq<(Seq<char>, usize)>, k: Seq<char>, i: int)
    requires
        last_entry(es, k, i),
    ensures
        map_of_texts(es).contains_key(k),
        map_of_texts(es)[k] == es[i].1,
    decreases es.len(),
{
    if i < es.len() - 1 {
        assert(es[es.len() - 1].0 != k);
        assert(last_entry(es.drop_last(), k, i)) by {
            assert forall|j: int| i < j < es.drop_last().len() implies (
            #[trigger] es.drop_last()[j]).0 != k by {
                assert(es[j].0 != k);
            }
        }
        lemma_map_of_texts_last(es.drop_last(), k, i);
    }
}

proof fn lemma_map_of_texts_key(es: Seq<(Seq<char>, usize)>, k: Seq<char>) -> (i: int)
    requires
        map_of_texts(es).contains_key(k),
    ensures
        0 <= i < es.len(),
        es[i].0 == k,
    decreases es.len(),
{
    if es.last().0 == k {
        es.len() - 1
    } else {
        lemma_map_of_texts_key(es.drop_last(), k)
    }
}

proof fn lemma_map_of_entries_last(es: Seq<(Pair, usize)>, k: Pair, i: int)
    requires
        last_entry(es, k, i),
    ensures
        map_of_entries(es).contains_key(k),
        map_of_entries(es)[k] == es[i].1,
    decreases es.len(),
{
    if i < es.len() - 1 {
        assert(es[es.len() - 1].0 != k);
        assert(last_entry(es.drop_last(), k, i)) by {
            assert forall|j: int| i < j < es.drop_last().len() implies (
            #[trigger] es.drop_last()[j]).0 != k by {
                assert(es[j].0 != k);
            }
        }
        lemma_map_of_entries_last(es.drop_last(), k, i);
    }
}

proof fn lemma_map_of_entries_key(es: Seq<(Pair, usize)>, k: Pair) -> (i: int)
    requires
        map_of_entries(es).contains_key(k),
    ensures
        0 <= i < es.len(),
        es[i].0 == k,
    decreases es.len(),
{
    if es.last().0 == k {
        es.len() - 1
    } else {
        lemma_map_of_entries_key(es.drop_last(), k)
    }
}

/// The tokenizer of a stored form has the listed texts, ids and rules, and no others; of
/// entries with the same key the last one counts.
pub proof fn law_tokenizer_of_parts(p: TokenizerParts, t: BpeTokenizer)
    requires
        call_ensures(BpeTokenizer::from_parts, (p,), t),
    ensures
        t.lexicon.ivocab@.len() == p.ivocab@.len(),
        forall|i: int|
            0 <= i < p.ivocab@.len() ==> (#[trigger] t.lexicon.ivocab@[i])@ == p.ivocab@[i]@,
        forall|i: int|
            last_entry(entry_views(p.vocab@), p.vocab@[i].0@, i) ==> t@.vocab.contains_key(
                (#[trigger] p.vocab@[i]).0@,
            ) && t@.vocab[p.vocab@[i].0@] == p.vocab@[i].1,
        forall|s: Seq<char>| #[trigger]
            t@.vocab.contains_key(s) ==> exists|i: int|
                0 <= i < p.vocab@.len() && (#[trigger] p.vocab@[i]).0@ == s,
        forall|i: int|
            last_entry(p.merges@, p.merges@[i].0, i) ==> t@.merges.contains_key(
                (#[trigger] p.merges@[i]).0,
            ) && t@.merges[p.merges@[i].0] == p.merges@[i].1,
        forall|q: Pair| #[trigger]
            t@.merges.contains_key(q) ==> exists|i: int|
                0 <= i < p.merges@.len() && (#[trigger] p.merges@[i]).0 == q,
        t.pad_token == p.pad_token,
        t.bos_token == p.bos_token,
        t.eos_token == p.eos_token,
        t.unk_token == p.unk_token,
{
    let es = entry_views(p.vocab@);
    assert(t@ == p@);
    assert(string_views(p.ivocab@) == string_views(t.lexicon.ivocab@));
    assert(string_views(t.lexicon.ivocab@).len() == t.lexicon.ivocab@.len());
    assert forall|i: int| 0 <= i < p.ivocab@.len() implies (#[trigger] t.lexicon.ivocab@[i])@
        == p.ivocab@[i]@ by {
        assert(string_views(p.ivocab@)[i] == string_views(t.lexicon.ivocab@)[i]);
    }
    assert forall|i: int|
        last_entry(entry_views(p.vocab@), p.vocab@[i].0@, i) implies t@.vocab.contains_key(
        (#[trigger] p.vocab@[i]).0@,
    ) && t@.vocab[p.vocab@[i].0@] == p.vocab@[i].1 by {
        lemma_map_of_texts_last(es, p.vocab@[i].0@, i);
    }
    assert forall|s: Seq<char>| #[trigger] t@.vocab.contains_key(s) implies exists|i: int|
        0 <= i < p.vocab@.len() && (#[trigger] p.vocab@[i]).0@ == s by {
        let i = lemma_map_of_texts_key(es, s);
        assert(p.vocab@[i].0@ == s);
    }
    assert forall|i: int|
        last_entry(p.merges@, p.merges@[i].0, i) implies t@.merges.contains_key(
        (#[trigger] p.merges@[i]).0,
    ) && t@.merges[p.merges@[i].0] == p.merges@[i].1 by {
        lemma_map_of_entries_last(p.merges@, p.merges@[i].0, i);
    }
    assert forall|q: Pair| #[trigger] t@.merges.contains_key(q) implies exists|i: int|
        0 <= i < p.merges@.len() && (#[trigger] p.merges@[i]).0 == q by {
        let i = lemma_map_of_entries_key(p.merges@, q);
        assert(p.merges@[i].0 == q);
    }
}

/// The number of known texts is that of the texts with an id.
pub proof fn law_vocab_size(t: BpeTokenizer, n: usize)
    requires
        call_ensures(BpeTokenizer::vocab_size, (&t,), n),
    ensures
        n == t@.vocab.dom().len(),
{
}

} // verus!

//! The tokenizer: from text to token ids and back.
use vstd::multiset::Multiset;
use vstd::prelude::*;

use crate::agenda::{is_first, Candidate};
use crate::learning::{
    law_training_keeps_consistency, law_training_keeps_ids, sentence_views, train_lexicon, trained,
};
use crate::lexicon::{lemma_consistent_len, without_marks, Lexicon, LexiconView, WORD_MARK};
use crate::merging::{
    candidates, ids_of, law_merging_is_complete, law_merging_shortens, law_merging_stays_below,
    merge_at, merge_tokens, mergeable, merged, pair_at, place, starts_at, with_candidate, work_off,
    Placed,
};
use crate::pairs::{deserialize_merges, entries_for, map_of_entries, serialize_merges, Pair};
use crate::text::{
    blanks_halved, chars_of, halve_blanks, is_white_space, law_trimmed,
    lemma_blanks_halved_made_of, lemma_blanks_halved_same, lemma_trimmed_same, replace_char,
    string_of, trim, trimmed, with_char_replaced,
};
use crate::vocabulary::{entry_views, map_of_texts, string_views, texts_for, Vocabulary};

verus! {

/// The ids of the characters of a text, with `unk` for those that have none.
pub open spec fn char_ids(
    vocab: Map<Seq<char>, usize>,
    unk: usize,
    text: Seq<char>,
) -> Seq<usize> {
    Seq::new(
        text.len(),
        |i: int|
            if vocab.contains_key(seq![text[i]]) {
                vocab[seq![text[i]]]
            } else {
                unk
            },
    )
}

/// The ids of a text.
pub open spec fn encoded(l: LexiconView, unk: usize, text: Seq<char>) -> Seq<usize> {
    merged(l.merges, char_ids(l.vocab, unk, text))
}

/// The texts of some ids, one after the other; an id without a text adds nothing.
pub open spec fn spelled(ivocab: Seq<Seq<char>>, ids: Seq<usize>) -> Seq<char>
    decreases ids.len(),
{
    if ids.len() == 0 {
        Seq::empty()
    } else {
        let before = spelled(ivocab, ids.drop_last());
        if ids.last() < ivocab.len() {
            before + ivocab[ids.last() as int]
        } else {
            before
        }
    }
}

/// A text with blanks for the word marks, each two blanks made one, and trimmed.
pub open spec fn cleaned(s: Seq<char>) -> Seq<char> {
    trimmed(blanks_halved(with_char_replaced(s, WORD_MARK, ' ')))
}

/// The text of some ids.
pub open spec fn decoded(ivocab: Seq<Seq<char>>, ids: Seq<usize>) -> Seq<char> {
    cleaned(spelled(ivocab, ids))
}

/// The lexicon of a tokenizer that knows the special tokens only.
pub open spec fn special_lexicon() -> LexiconView {
    LexiconView {
        vocab: Map::<Seq<char>, usize>::empty().insert("<pad>"@, 0).insert("<bos>"@, 1).insert(
            "<eos>"@,
            2,
        ).insert("<unk>"@, 3),
        ivocab: seq!["<pad>"@, "<bos>"@, "<eos>"@, "<unk>"@],
        merges: Map::<Pair, usize>::empty(),
    }
}

/// A byte-pair tokenizer.
pub struct BpeTokenizer {
    pub lexicon: Lexicon,
    pub pad_token: usize,
    pub bos_token: usize,
    pub eos_token: usize,
    pub unk_token: usize,
}

/// A tokenizer as plain lists, in the form in which it is stored.
pub struct TokenizerParts {
    /// Texts and their ids.
    pub vocab: Vec<(String, usize)>,
    /// The text of each id.
    pub ivocab: Vec<String>,
    /// Pairs of ids and the ids that they make.
    pub merges: Vec<(Pair, usize)>,
    pub pad_token: usize,
    pub bos_token: usize,
    pub eos_token: usize,
    pub unk_token: usize,
}

impl View for TokenizerParts {
    type V = LexiconView;

    open spec fn view(&self) -> LexiconView {
        LexiconView {
            vocab: map_of_texts(entry_views(self.vocab@)),
            ivocab: string_views(self.ivocab@),
            merges: map_of_entries(self.merges@),
        }
    }
}

impl View for BpeTokenizer {
    type V = LexiconView;

    open spec fn view(&self) -> LexiconView {
        self.lexicon@
    }
}

/// Copies a list of strings.
fn clone_strings(v: &Vec<String>) -> (r: Vec<String>)
    ensures
        string_views(r@) == string_views(v@),
{
    let mut r: Vec<String> = Vec::new();
    let mut i: usize = 0;
    while i < v.len()
        invariant
            i <= v@.len(),
            string_views(r@) =~= string_views(v@).take(i as int),
        decreases v.len() - i,
    {
        let ghost done = r@;
        r.push(v[i].clone());
        assert(string_views(r@) =~= string_views(done).push(v@[i as int]@));
        i += 1;
    }
    r
}

impl BpeTokenizer {
    /// Whether the tokenizer's own lists of its keys are right.
    pub open spec fn inv(self) -> bool {
        self.lexicon.inv()
    }

    /// A tokenizer that knows the special tokens only.
    pub fn new() -> (t: BpeTokenizer)
        ensures
            t.inv(),
            t@ == special_lexicon(),
            t@.consistent(),
            t.pad_token == 0,
            t.bos_token == 1,
            t.eos_token == 2,
            t.unk_token == 3,
    {
        proof {
            reveal_strlit("<pad>");
            reveal_strlit("<bos>");
            reveal_strlit("<eos>");
            reveal_strlit("<unk>");
            assert("<pad>"@[1] == 'p' && "<bos>"@[1] == 'b' && "<eos>"@[1] == 'e' && "<unk>"@[1]
                == 'u');
        }
        let mut lexicon = Lexicon::new();
        lexicon.add_text("<pad>".to_string());
        lexicon.add_text("<bos>".to_string());
        lexicon.add_text("<eos>".to_string());
        lexicon.add_text("<unk>".to_string());
        assert(lexicon@ =~= special_lexicon());
        BpeTokenizer { lexicon, pad_token: 0, bos_token: 1, eos_token: 2, unk_token: 3 }
    }

    /// Learns tokens and rules from some sentences, until `target_vocab_size` texts are
    /// known or nothing is left to merge.
    pub fn train(&mut self, sentences: &[&str], target_vocab_size: usize)
        requires
            old(self).inv(),
            old(self)@.in_range(),
        ensures
            final(self).inv(),
            final(self)@ == trained(
                old(self)@,
                sentence_views(sentences@),
                target_vocab_size as nat,
            ),
            final(self)@.ivocab.len() <= usize::MAX,
            final(self)@.in_range(),
            old(self)@.consistent() ==> final(self)@.consistent(),
            final(self).pad_token == old(self).pad_token,
            final(self).bos_token == old(self).bos_token,
            final(self).eos_token == old(self).eos_token,
            final(self).unk_token == old(self).unk_token,
    {
        let ghost before = self@;
        train_lexicon(&mut self.lexicon, sentences, target_vocab_size);
        assert(self.lexicon.ivocab@.len() == self.lexicon.ivocab.len());
        proof {
            let target = target_vocab_size as nat;
            law_training_keeps_ids(before, sentence_views(sentences@), target);
            if before.consistent() {
                law_training_keeps_consistency(before, sentence_views(sentences@), target);
            }
        }
    }

    /// The ids of a text.
    pub fn encode(&self, text: &str) -> (ids: Vec<usize>)
        ensures
            ids@ == encoded(self@, self.unk_token, text@),
    {
        let unk: usize = self.unk_token;
        let mut ids: Vec<usize> = Vec::new();
        for c in it: text.chars()
            invariant
                it.seq() == text@,
                unk == self.unk_token,
                ids@ == char_ids(self@.vocab, unk, text@).take(it.index() as int),
        {
            let mut t = String::new();
            t.push(c);
            assert(t@ =~= seq![c]);
            ids.push(
                match self.lexicon.vocab.get(t.as_str()) {
                    Some(id) => id,
                    None => unk,
                },
            );
            assert(ids@ =~= char_ids(self@.vocab, unk, text@).take(it.index() + 1));
        }
        assert(ids@ =~= char_ids(self@.vocab, unk, text@));
        merge_tokens(&self.lexicon.merges, ids)
    }

    /// The text of some ids.
    pub fn decode(&self, ids: &[usize]) -> (text: String)
        ensures
            text@ == decoded(self@.ivocab, ids@),
    {
        let mut joined: Vec<char> = Vec::new();
        let mut i: usize = 0;
        while i < ids.len()
            invariant
                i <= ids@.len(),
                joined@ == spelled(self@.ivocab, ids@.take(i as int)),
            decreases ids.len() - i,
        {
            let id: usize = ids[i];
            assert(ids@.take(i + 1).drop_last() =~= ids@.take(i as int));
            if id < self.lexicon.ivocab.len() {
                let mut cs = chars_of(self.lexicon.ivocab[id].as_str());
                joined.append(&mut cs);
            }
            i += 1;
        }
        assert(ids@.take(ids@.len() as int) =~= ids@);
        let unmarked = replace_char(&joined, WORD_MARK, ' ');
        let halved = halve_blanks(&unmarked);
        string_of(&trim(&halved))
    }

    /// The number of known texts.
    pub fn vocab_size(&self) -> (n: usize)
        ensures
            n == self@.vocab.len(),
    {
        self.lexicon.vocab.len()
    }

    /// The tokenizer as plain lists.
    pub fn to_parts(&self) -> (p: TokenizerParts)
        requires
            self.inv(),
        ensures
            p@ == self@,
            p.vocab@.len() == self@.vocab.len(),
            entry_views(p.vocab@) == texts_for(self.lexicon.vocab.word_order(), self@.vocab),
            p.merges@ == entries_for(self.lexicon.merges.key_order(), self@.merges),
            p.pad_token == self.pad_token,
            p.bos_token == self.bos_token,
            p.eos_token == self.eos_token,
            p.unk_token == self.unk_token,
    {
        TokenizerParts {
            vocab: self.lexicon.vocab.entries(),
            ivocab: clone_strings(&self.lexicon.ivocab),
            merges: serialize_merges(&self.lexicon.merges),
            pad_token: self.pad_token,
            bos_token: self.bos_token,
            eos_token: self.eos_token,
            unk_token: self.unk_token,
        }
    }

    /// The tokenizer of plain lists; of entries with the same key the last one counts.
    pub fn from_parts(p: TokenizerParts) -> (t: BpeTokenizer)
        ensures
            t.inv(),
            t@ == p@,
            t.pad_token == p.pad_token,
            t.bos_token == p.bos_token,
            t.eos_token == p.eos_token,
            t.unk_token == p.unk_token,
    {
        let merges = deserialize_merges(&p.merges);
        BpeTokenizer {
            lexicon: Lexicon {
                vocab: Vocabulary::from_entries(p.vocab),
                ivocab: p.ivocab,
                merges,
            },
            pad_token: p.pad_token,
            bos_token: p.bos_token,
            eos_token: p.eos_token,
            unk_token: p.unk_token,
        }
    }
}

/// Storing a tokenizer as lists and making a tokenizer of those lists gives the same
/// tokenizer.
pub proof fn law_parts_give_the_tokenizer_back(
    t: BpeTokenizer,
    p: TokenizerParts,
    back: BpeTokenizer,
)
    requires
        call_ensures(BpeTokenizer::to_parts, (&t,), p),
        call_ensures(BpeTokenizer::from_parts, (p,), back),
    ensures
        back@ == t@,
        back.pad_token == t.pad_token,
        back.bos_token == t.bos_token,
        back.eos_token == t.eos_token,
        back.unk_token == t.unk_token,
{
}

/// Whether a text holds no word mark.
pub open spec fn unmarked(s: Seq<char>) -> bool {
    forall|i: int| 0 <= i < s.len() ==> #[trigger] s[i] != WORD_MARK
}

/// Whether every id has a text, and none of these texts holds a word mark.
pub open spec fn plain(ivocab: Seq<Seq<char>>, ids: Seq<usize>) -> bool {
    forall|i: int|
        0 <= i < ids.len() ==> (#[trigger] ids[i]) < ivocab.len() && unmarked(
            ivocab[ids[i] as int],
        )
}

proof fn lemma_spelled_concat(ivocab: Seq<Seq<char>>, a: Seq<usize>, b: Seq<usize>)
    ensures
        spelled(ivocab, a + b) == spelled(ivocab, a) + spelled(ivocab, b),
    decreases b.len(),
{
    if b.len() == 0 {
        assert(a + b =~= a);
        assert(spelled(ivocab, a) + spelled(ivocab, b) =~= spelled(ivocab, a));
    } else {
        assert((a + b).drop_last() =~= a + b.drop_last());
        lemma_spelled_concat(ivocab, a, b.drop_last());
        assert(spelled(ivocab, a + b) =~= spelled(ivocab, a) + spelled(ivocab, b));
    }
}

proof fn lemma_spelled_one(ivocab: Seq<Seq<char>>, id: usize)
    requires
        id < ivocab.len(),
    ensures
        spelled(ivocab, seq![id]) == ivocab[id as int],
{
    reveal_with_fuel(spelled, 2);
    assert(seq![id].drop_last() =~= Seq::empty());
    assert(spelled(ivocab, seq![id]) =~= ivocab[id as int]);
}

/// A merge by a rule of a consistent lexicon keeps what plain tokens spell.
proof fn lemma_merge_keeps_text(l: LexiconView, row: Seq<Placed>, k: int)
    requires
        l.consistent(),
        plain(l.ivocab, ids_of(row)),
        mergeable(l.merges, row, k),
    ensures
        plain(l.ivocab, ids_of(merge_at(l.merges, row, k))),
        spelled(l.ivocab, ids_of(merge_at(l.merges, row, k))) == spelled(l.ivocab, ids_of(row)),
{
    let ids = ids_of(row);
    let next = ids_of(merge_at(l.merges, row, k));
    let p = pair_at(row, k);
    let id = l.merges[p];
    let left = l.ivocab[p.0 as int];
    let right = l.ivocab[p.1 as int];
    assert(ids[k] == p.0 && ids[k + 1] == p.1);
    assert(l.merges.contains_key(p));
    assert(without_marks(right) == right);
    assert(l.ivocab[id as int] == left + right);
    let head = ids.take(k);
    let tail = ids.skip(k + 2);
    assert(ids =~= head + (seq![p.0] + (seq![p.1] + tail)));
    assert(next =~= head + (seq![id] + tail));
    lemma_spelled_concat(l.ivocab, head, seq![p.0] + (seq![p.1] + tail));
    lemma_spelled_concat(l.ivocab, seq![p.0], seq![p.1] + tail);
    lemma_spelled_concat(l.ivocab, seq![p.1], tail);
    lemma_spelled_concat(l.ivocab, head, seq![id] + tail);
    lemma_spelled_concat(l.ivocab, seq![id], tail);
    lemma_spelled_one(l.ivocab, p.0);
    lemma_spelled_one(l.ivocab, p.1);
    lemma_spelled_one(l.ivocab, id);
    assert(left + (right + spelled(l.ivocab, tail)) =~= (left + right) + spelled(l.ivocab, tail));
    assert forall|i: int| 0 <= i < next.len() implies (#[trigger] next[i]) < l.ivocab.len()
        && unmarked(l.ivocab[next[i] as int]) by {
        if i < k {
            assert(next[i] == ids[i]);
        } else if i > k {
            assert(next[i] == ids[i + 1]);
        } else {
            assert(next[i] == id);
            assert(unmarked(left + right));
        }
    }
}

/// Working off an agenda keeps what plain tokens spell.
proof fn lemma_work_off_keeps_text(
    l: LexiconView,
    row: Seq<Placed>,
    agenda: Multiset<Candidate>,
)
    requires
        l.consistent(),
        plain(l.ivocab, ids_of(row)),
    ensures
        plain(l.ivocab, ids_of(work_off(l.merges, row, agenda))),
        spelled(l.ivocab, ids_of(work_off(l.merges, row, agenda))) == spelled(
            l.ivocab,
            ids_of(row),
        ),
    decreases 2 * row.len() + agenda.len(),
{
    let rules = l.merges;
    if exists|c: Candidate| is_first(agenda, c) {
        let c = choose|c: Candidate| is_first(agenda, c);
        let rest = agenda.remove(c);
        if exists|k: int| starts_at(row, k, c.pos as int) && mergeable(rules, row, k) {
            let k = choose|k: int| starts_at(row, k, c.pos as int) && mergeable(rules, row, k);
            let next = merge_at(rules, row, k);
            let with_left = with_candidate(rest, rules, next, k - 1);
            lemma_merge_keeps_text(l, row, k);
            let with_both = with_candidate(with_left, rules, next, k);
            lemma_work_off_keeps_text(l, next, with_both);
            assert(work_off(rules, row, agenda) == work_off(rules, next, with_both));
        } else {
            lemma_work_off_keeps_text(l, row, rest);
            assert(work_off(rules, row, agenda) == work_off(rules, row, rest));
        }
    } else {
        assert(work_off(rules, row, agenda) == row);
    }
}

/// The ids of a text spell what the ids of its characters spell: merging changes no text.
///
/// The characters' tokens have to be free of word marks, which a merge may drop.
pub proof fn law_encoding_keeps_the_text(l: LexiconView, unk: usize, text: Seq<char>)
    requires
        l.consistent(),
        plain(l.ivocab, char_ids(l.vocab, unk, text)),
    ensures
        spelled(l.ivocab, encoded(l, unk, text)) == spelled(
            l.ivocab,
            char_ids(l.vocab, unk, text),
        ),
        plain(l.ivocab, encoded(l, unk, text)),
{
    let ids = char_ids(l.vocab, unk, text);
    let row = place(ids);
    assert(ids_of(row) =~= ids);
    lemma_work_off_keeps_text(l, row, candidates(l.merges, row, row.len() - 1));
}

/// The ids of known characters spell the characters.
proof fn lemma_char_ids_spell(l: LexiconView, unk: usize, text: Seq<char>)
    requires
        l.consistent(),
        unmarked(text),
        forall|i: int| 0 <= i < text.len() ==> l.vocab.contains_key(seq![#[trigger] text[i]]),
    ensures
        plain(l.ivocab, char_ids(l.vocab, unk, text)),
        spelled(l.ivocab, char_ids(l.vocab, unk, text)) == text,
    decreases text.len(),
{
    let ids = char_ids(l.vocab, unk, text);
    assert forall|i: int| 0 <= i < ids.len() implies (#[trigger] ids[i]) < l.ivocab.len()
        && unmarked(l.ivocab[ids[i] as int]) by {
        assert(l.vocab.contains_key(seq![text[i]]));
        assert(l.ivocab[ids[i] as int] == seq![text[i]]);
    }
    if text.len() > 0 {
        let init = text.drop_last();
        assert forall|i: int| 0 <= i < init.len() implies l.vocab.contains_key(
            seq![#[trigger] init[i]],
        ) by {
            assert(init[i] == text[i]);
        }
        lemma_char_ids_spell(l, unk, init);
        assert(ids.drop_last() =~= char_ids(l.vocab, unk, init));
        let n = text.len() - 1;
        assert(l.vocab.contains_key(seq![text[n]]));
        assert(l.ivocab[ids[n] as int] == seq![text[n]]);
        assert(init + seq![text[n]] =~= text);
    }
}

/// Decoding the ids of a text gives the text back, but for the white space that decoding
/// takes away: each two blanks become one, and the ends are trimmed.
///
/// The characters have to be known, and none of them the word mark.
pub proof fn law_decode_undoes_encode(l: LexiconView, unk: usize, text: Seq<char>)
    requires
        l.consistent(),
        unmarked(text),
        forall|i: int| 0 <= i < text.len() ==> l.vocab.contains_key(seq![#[trigger] text[i]]),
    ensures
        decoded(l.ivocab, encoded(l, unk, text)) == trimmed(blanks_halved(text)),
{
    lemma_char_ids_spell(l, unk, text);
    law_encoding_keeps_the_text(l, unk, text);
    assert(with_char_replaced(text, WORD_MARK, ' ') =~= text);
}

/// Decoding gives a text of known characters back as it was, where the text has no white
/// space at its ends and no two blanks side by side.
pub proof fn law_decode_gives_tidy_text_back(l: LexiconView, unk: usize, text: Seq<char>)
    requires
        l.consistent(),
        unmarked(text),
        forall|i: int| 0 <= i < text.len() ==> l.vocab.contains_key(seq![#[trigger] text[i]]),
        text.len() > 0 ==> !is_white_space(text[0]) && !is_white_space(text.last()),
        forall|i: int|
            0 <= i < text.len() - 1 ==> !(#[trigger] text[i] == ' ' && text[i + 1] == ' '),
    ensures
        decoded(l.ivocab, encoded(l, unk, text)) == text,
{
    law_decode_undoes_encode(l, unk, text);
    lemma_blanks_halved_same(text);
    lemma_trimmed_same(text);
}

/// A decoded text holds no word mark, and no white space at its ends.
pub proof fn law_decoded_text_is_clean(ivocab: Seq<Seq<char>>, ids: Seq<usize>)
    ensures
        unmarked(decoded(ivocab, ids)),
        decoded(ivocab, ids).len() > 0 ==> !is_white_space(decoded(ivocab, ids)[0])
            && !is_white_space(decoded(ivocab, ids).last()),
{
    let replaced = with_char_replaced(spelled(ivocab, ids), WORD_MARK, ' ');
    let halved = blanks_halved(replaced);
    let d = decoded(ivocab, ids);
    law_trimmed(halved);
    lemma_blanks_halved_made_of(replaced);
    assert forall|i: int| 0 <= i < d.len() implies #[trigger] d[i] != WORD_MARK by {
        assert(halved.contains(d[i]));
        let j = choose|j: int| 0 <= j < halved.len() && halved[j] == d[i];
        assert(replaced.contains(halved[j]));
        let k = choose|k: int| 0 <= k < replaced.len() && replaced[k] == halved[j];
        assert(replaced[k] != WORD_MARK);
    }
}

/// An id without a text adds nothing to a decoded text.
pub proof fn law_decode_skips_unknown_ids(
    ivocab: Seq<Seq<char>>,
    before: Seq<usize>,
    id: usize,
    after: Seq<usize>,
)
    requires
        id >= ivocab.len(),
    ensures
        decoded(ivocab, before.push(id) + after) == decoded(ivocab, before + after),
{
    lemma_spelled_concat(ivocab, before.push(id), after);
    lemma_spelled_concat(ivocab, before, after);
    assert(before.push(id).drop_last() =~= before);
}

/// No two neighbouring ids of a text could still be merged, and there are at most as many
/// ids as characters; a text that is not empty has at least one.
pub proof fn law_encoding_is_complete(l: LexiconView, unk: usize, text: Seq<char>)
    requires
        text.len() <= usize::MAX,
    ensures
        ({
            let ids = encoded(l, unk, text);
            &&& forall|k: int|
                0 <= k < ids.len() - 1 ==> !l.merges.contains_key((#[trigger] ids[k], ids[k + 1]))
            &&& ids.len() <= text.len()
            &&& text.len() > 0 ==> ids.len() > 0
        }),
{
    let start = char_ids(l.vocab, unk, text);
    let ids = encoded(l, unk, text);
    law_merging_shortens(l.merges, start);
    assert forall|k: int| 0 <= k < ids.len() - 1 implies !l.merges.contains_key(
        (#[trigger] ids[k], ids[k + 1]),
    ) by {
        law_merging_is_complete(l.merges, start, k);
    }
}

/// Every id of a text is below the number of known texts, where the id for unknown
/// characters is.
pub proof fn law_encoded_ids_are_known(l: LexiconView, unk: usize, text: Seq<char>)
    requires
        l.consistent(),
        unk < l.vocab.len(),
    ensures
        forall|i: int|
            0 <= i < encoded(l, unk, text).len() ==> #[trigger] encoded(l, unk, text)[i]
                < l.vocab.len(),
{
    lemma_consistent_len(l);
    let start = char_ids(l.vocab, unk, text);
    assert forall|i: int| 0 <= i < start.len() implies #[trigger] start[i] < l.vocab.len() by {
        if l.vocab.contains_key(seq![text[i]]) {
            assert(l.vocab[seq![text[i]]] < l.ivocab.len());
        }
    }
    law_merging_stays_below(l.merges, start, l.vocab.len());
}

} // verus!

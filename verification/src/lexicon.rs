//! What a tokenizer knows: the texts of its tokens, and the rules that merge tokens.
use vstd::prelude::*;

use crate::pairs::{Pair, PairMap};
use crate::vocabulary::{string_views, Vocabulary};

verus! {

/// The mark in front of the first character of a word.
pub const WORD_MARK: char = '\u{120}';

/// The contents of a lexicon.
#[verifier::ext_equal]
pub struct LexiconView {
    /// The id of each known text.
    pub vocab: Map<Seq<char>, usize>,
    /// The text of each id.
    pub ivocab: Seq<Seq<char>>,
    /// The token that two neighbouring tokens make.
    pub merges: Map<Pair, usize>,
}

/// A text without the word marks at its start.
pub open spec fn without_marks(s: Seq<char>) -> Seq<char>
    decreases s.len(),
{
    if s.len() > 0 && s[0] == WORD_MARK {
        without_marks(s.drop_first())
    } else {
        s
    }
}

/// The text of the token that two tokens make.
pub open spec fn merged_text(left: Seq<char>, right: Seq<char>) -> Seq<char> {
    left + without_marks(right)
}

impl LexiconView {
    /// Whether every known text has an id that has a text.
    pub open spec fn in_range(self) -> bool {
        forall|t: Seq<char>| #[trigger]
            self.vocab.contains_key(t) ==> self.vocab[t] < self.ivocab.len()
    }

    /// Whether texts and ids determine each other, and every rule makes a token whose text
    /// is that of the two tokens together.
    pub open spec fn consistent(self) -> bool {
        &&& self.in_range()
        &&& forall|t: Seq<char>| #[trigger]
            self.vocab.contains_key(t) ==> self.ivocab[self.vocab[t] as int] == t
        &&& forall|i: int|
            0 <= i < self.ivocab.len() ==> self.vocab.contains_key(#[trigger] self.ivocab[i])
                && self.vocab[self.ivocab[i]] == i
        &&& forall|p: Pair| #[trigger]
            self.merges.contains_key(p) ==> {
                &&& p.0 < self.ivocab.len()
                &&& p.1 < self.ivocab.len()
                &&& self.merges[p] < self.ivocab.len()
                &&& self.ivocab[self.merges[p] as int] == merged_text(
                    self.ivocab[p.0 as int],
                    self.ivocab[p.1 as int],
                )
            }
    }

    /// The lexicon in which `t` has an id: the next free one, where it had none.
    pub open spec fn with_text(self, t: Seq<char>) -> LexiconView {
        if self.vocab.contains_key(t) {
            self
        } else {
            LexiconView {
                vocab: self.vocab.insert(t, self.ivocab.len() as usize),
                ivocab: self.ivocab.push(t),
                merges: self.merges,
            }
        }
    }

    /// The lexicon that merges the tokens of `p`.
    pub open spec fn with_rule(self, p: Pair) -> LexiconView {
        let t = merged_text(self.ivocab[p.0 as int], self.ivocab[p.1 as int]);
        let l = self.with_text(t);
        LexiconView { vocab: l.vocab, ivocab: l.ivocab, merges: l.merges.insert(p, l.vocab[t]) }
    }

    /// Whether `self` keeps in `to` all texts with their ids, and all ids with their texts.
    pub open spec fn extended_by(self, to: LexiconView) -> bool {
        &&& self.ivocab.len() <= to.ivocab.len()
        &&& forall|i: int|
            0 <= i < self.ivocab.len() ==> #[trigger] to.ivocab[i] == self.ivocab[i]
        &&& forall|t: Seq<char>| #[trigger]
            self.vocab.contains_key(t) ==> to.vocab.contains_key(t) && to.vocab[t]
                == self.vocab[t]
    }

    /// The lexicon in which the texts `ts`, one after the other, have got an id.
    pub open spec fn with_texts(self, ts: Seq<Seq<char>>) -> LexiconView
        decreases ts.len(),
    {
        if ts.len() == 0 {
            self
        } else {
            self.with_texts(ts.drop_last()).with_text(ts.last())
        }
    }
}

/// A new text extends a lexicon and keeps its ids in range.
pub proof fn lemma_with_text(l: LexiconView, t: Seq<char>)
    ensures
        l.extended_by(l.with_text(t)),
        l.in_range() ==> l.with_text(t).in_range(),
        l.with_text(t).vocab.contains_key(t),
        l.with_text(t).merges == l.merges,
{
}

/// A new rule extends a lexicon and keeps its ids in range.
pub proof fn lemma_with_rule(l: LexiconView, p: Pair)
    ensures
        l.extended_by(l.with_rule(p)),
        l.in_range() ==> l.with_rule(p).in_range() && l.with_rule(p).merges[p] < l.with_rule(
            p,
        ).ivocab.len(),
{
    lemma_with_text(l, merged_text(l.ivocab[p.0 as int], l.ivocab[p.1 as int]));
}

/// New texts extend a lexicon and keep its ids in range.
pub proof fn lemma_with_texts(l: LexiconView, ts: Seq<Seq<char>>)
    ensures
        l.extended_by(l.with_texts(ts)),
        l.in_range() ==> l.with_texts(ts).in_range(),
        forall|i: int| 0 <= i < ts.len() ==> l.with_texts(ts).vocab.contains_key(#[trigger] ts[i]),
        l.with_texts(ts).merges == l.merges,
    decreases ts.len(),
{
    if ts.len() > 0 {
        let before = l.with_texts(ts.drop_last());
        lemma_with_texts(l, ts.drop_last());
        lemma_with_text(before, ts.last());
        assert forall|i: int| 0 <= i < ts.len() implies l.with_texts(ts).vocab.contains_key(
            #[trigger] ts[i],
        ) by {
            if i < ts.len() - 1 {
                assert(ts.drop_last()[i] == ts[i]);
                assert(before.vocab.contains_key(ts[i]));
            }
        }
    }
}

/// A new text keeps a lexicon consistent.
pub proof fn lemma_with_text_consistent(l: LexiconView, t: Seq<char>)
    requires
        l.consistent(),
        l.ivocab.len() <= usize::MAX,
    ensures
        l.with_text(t).consistent(),
{
    let to = l.with_text(t);
    if !l.vocab.contains_key(t) {
        assert forall|i: int| 0 <= i < to.ivocab.len() implies to.vocab.contains_key(
            #[trigger] to.ivocab[i],
        ) && to.vocab[to.ivocab[i]] == i by {
            if i < l.ivocab.len() {
                assert(to.ivocab[i] == l.ivocab[i]);
                assert(l.vocab.contains_key(l.ivocab[i]));
            }
        }
        assert forall|p: Pair| #[trigger] to.merges.contains_key(p) implies {
            &&& p.0 < to.ivocab.len()
            &&& p.1 < to.ivocab.len()
            &&& to.merges[p] < to.ivocab.len()
            &&& to.ivocab[to.merges[p] as int] == merged_text(
                to.ivocab[p.0 as int],
                to.ivocab[p.1 as int],
            )
        } by {
            assert(l.merges.contains_key(p));
        }
    }
}

/// New texts keep a lexicon consistent.
pub proof fn lemma_with_texts_consistent(l: LexiconView, ts: Seq<Seq<char>>)
    requires
        l.consistent(),
        l.with_texts(ts).ivocab.len() <= usize::MAX,
    ensures
        l.with_texts(ts).consistent(),
    decreases ts.len(),
{
    if ts.len() > 0 {
        let before = l.with_texts(ts.drop_last());
        lemma_with_text(before, ts.last());
        lemma_with_texts_consistent(l, ts.drop_last());
        lemma_with_text_consistent(before, ts.last());
    }
}

/// A new rule keeps a lexicon consistent, and keeps all its rules.
pub proof fn lemma_with_rule_consistent(l: LexiconView, p: Pair)
    requires
        l.consistent(),
        l.ivocab.len() <= usize::MAX,
        p.0 < l.ivocab.len(),
        p.1 < l.ivocab.len(),
    ensures
        l.with_rule(p).consistent(),
        l.merges.submap_of(l.with_rule(p).merges),
{
    let t = merged_text(l.ivocab[p.0 as int], l.ivocab[p.1 as int]);
    let mid = l.with_text(t);
    let to = l.with_rule(p);
    lemma_with_text(l, t);
    lemma_with_text_consistent(l, t);
    assert forall|q: Pair| #[trigger] to.merges.contains_key(q) implies {
        &&& q.0 < to.ivocab.len()
        &&& q.1 < to.ivocab.len()
        &&& to.merges[q] < to.ivocab.len()
        &&& to.ivocab[to.merges[q] as int] == merged_text(
            to.ivocab[q.0 as int],
            to.ivocab[q.1 as int],
        )
    } by {
        if q != p {
            assert(mid.merges.contains_key(q));
        } else {
            assert(mid.vocab.contains_key(t));
            assert(mid.ivocab[p.0 as int] == l.ivocab[p.0 as int]);
            assert(mid.ivocab[p.1 as int] == l.ivocab[p.1 as int]);
        }
    }
    if l.merges.contains_key(p) {
        assert(l.ivocab[l.merges[p] as int] == t);
        assert(l.vocab.contains_key(l.ivocab[l.merges[p] as int]));
    }
}

/// A consistent lexicon knows as many texts as it has ids.
pub proof fn lemma_consistent_len(l: LexiconView)
    requires
        l.consistent(),
    ensures
        l.vocab.dom().finite(),
        l.vocab.len() == l.ivocab.len(),
{
    assert(l.ivocab.no_duplicates()) by {
        assert forall|i: int, j: int|
            0 <= i < l.ivocab.len() && 0 <= j < l.ivocab.len() && i != j implies l.ivocab[i]
            != l.ivocab[j] by {
            assert(l.vocab[l.ivocab[i]] == i);
            assert(l.vocab[l.ivocab[j]] == j);
        }
    }
    l.ivocab.unique_seq_to_set();
    assert(l.ivocab.to_set() =~= l.vocab.dom()) by {
        assert forall|t: Seq<char>| l.ivocab.to_set().contains(t) <==> l.vocab.dom().contains(
            t,
        ) by {
            if l.vocab.contains_key(t) {
                assert(l.ivocab[l.vocab[t] as int] == t);
            }
            if l.ivocab.contains(t) {
                let i = choose|i: int| 0 <= i < l.ivocab.len() && l.ivocab[i] == t;
                assert(l.vocab.contains_key(l.ivocab[i]));
            }
        }
    }
}

/// The texts of a tokenizer's tokens and its rules.
pub struct Lexicon {
    pub vocab: Vocabulary,
    pub ivocab: Vec<String>,
    pub merges: PairMap,
}

impl View for Lexicon {
    type V = LexiconView;

    open spec fn view(&self) -> LexiconView {
        LexiconView {
            vocab: self.vocab@,
            ivocab: string_views(self.ivocab@),
            merges: self.merges@,
        }
    }
}

/// Appends `s` without the word marks at its start.
fn append_unmarked(out: &mut String, s: &str)
    ensures
        final(out)@ == old(out)@ + without_marks(s@),
{
    let ghost before = out@;
    let mut started: bool = false;
    assert(s@.skip(0) =~= s@);
    for c in it: s.chars()
        invariant
            it.seq() == s@,
            started ==> out@ + s@.skip(it.index() as int) =~= before + without_marks(s@),
            !started ==> out@ == before && without_marks(s@) == without_marks(
                s@.skip(it.index() as int),
            ),
    {
        let ghost rest = s@.skip(it.index() as int);
        assert(rest.drop_first() =~= s@.skip(it.index() + 1));
        assert(rest =~= seq![c] + s@.skip(it.index() + 1));
        if started || c != WORD_MARK {
            started = true;
            out.push(c);
        }
    }
    assert(s@.skip(s@.len() as int) =~= Seq::empty());
}

impl Lexicon {
    /// Whether the lists that the maps keep of their keys are right.
    pub open spec fn inv(self) -> bool {
        self.vocab.inv() && self.merges.inv()
    }

    /// A lexicon without tokens.
    pub fn new() -> (l: Lexicon)
        ensures
            l.inv(),
            l@.vocab == Map::<Seq<char>, usize>::empty(),
            l@.ivocab == Seq::<Seq<char>>::empty(),
            l@.merges == Map::<Pair, usize>::empty(),
    {
        let l = Lexicon { vocab: Vocabulary::new(), ivocab: Vec::new(), merges: PairMap::new() };
        assert(l@.ivocab =~= Seq::<Seq<char>>::empty());
        l
    }

    /// Makes sure that `t` has an id, and returns that id.
    pub fn add_text(&mut self, t: String) -> (id: usize)
        requires
            old(self).inv(),
        ensures
            final(self).inv(),
            final(self)@ == old(self)@.with_text(t@),
            id == final(self)@.vocab[t@],
    {
        match self.vocab.get(t.as_str()) {
            Some(id) => id,
            None => {
                let ghost before = self@;
                let id: usize = self.ivocab.len();
                self.vocab.insert(t.clone(), id);
                self.ivocab.push(t);
                assert(self@.ivocab =~= before.ivocab.push(t@));
                id
            },
        }
    }

    /// Adds the rule that merges the tokens of `p`, and returns the token that they make.
    pub fn add_rule(&mut self, p: Pair) -> (id: usize)
        requires
            old(self).inv(),
            p.0 < old(self)@.ivocab.len(),
            p.1 < old(self)@.ivocab.len(),
        ensures
            final(self).inv(),
            final(self)@ == old(self)@.with_rule(p),
            id == final(self)@.merges[p],
    {
        let mut t: String = self.ivocab[p.0].clone();
        append_unmarked(&mut t, self.ivocab[p.1].as_str());
        let id: usize = self.add_text(t);
        self.merges.insert(p, id);
        id
    }
}

} // verus!

//! What training starts from: the tokenizer, the data set and the size of the model.
use vstd::prelude::*;

use crate::data::{chunks, examples_of, LMData};
use crate::learning::{sentence_views, trained};
use crate::text::{at_most, chars_of, head_lines, joined_lines, lines, string_of};
use crate::tokenizer::{encoded, special_lexicon, BpeTokenizer};

verus! {

/// The number of lines of the data set.
pub const MAX_DATASET_LINES: usize = 999_999;

/// The number of lines from which the tokenizer is trained.
pub const TOKENIZER_LINES: usize = 2000;

/// The number of texts that the tokenizer is to know.
pub const TARGET_VOCAB_SIZE: usize = 12000;

/// The length of a row.
pub const ROW_LEN: usize = 128;

/// The first `n` lines of a text, with a line feed between each two.
pub open spec fn first_lines(raw: Seq<char>, n: nat) -> Seq<char> {
    joined_lines(at_most(lines(raw), n))
}

/// The first `n` lines of a text.
pub fn take_lines(raw: &str, n: usize) -> (r: String)
    ensures
        r@ == first_lines(raw@, n as nat),
{
    string_of(&head_lines(&chars_of(raw), n))
}

/// A new tokenizer, trained on the first lines of a text.
pub fn new_tokenizer(raw: &str) -> (t: BpeTokenizer)
    ensures
        t.inv(),
        t@ == trained(
            special_lexicon(),
            seq![first_lines(raw@, TOKENIZER_LINES as nat)],
            TARGET_VOCAB_SIZE as nat,
        ),
        t@.consistent(),
        t.pad_token == 0,
        t.bos_token == 1,
        t.eos_token == 2,
        t.unk_token == 3,
{
    let mut t = BpeTokenizer::new();
    let subset = take_lines(raw, TOKENIZER_LINES);
    let sentences: [&str; 1] = [subset.as_str()];
    assert(sentence_views(sentences@) =~= seq![subset@]);
    t.train(&sentences, TARGET_VOCAB_SIZE);
    t
}

/// The data set of a text.
pub fn dataset(raw: &str, tokenizer: &BpeTokenizer) -> (d: LMData)
    ensures
        d@ == examples_of(
            chunks(
                encoded(
                    tokenizer@,
                    tokenizer.unk_token,
                    first_lines(raw@, MAX_DATASET_LINES as nat),
                ),
                ROW_LEN as nat,
            ),
            ROW_LEN as nat,
        ),
{
    let text = take_lines(raw, MAX_DATASET_LINES);
    LMData::from_text(text.as_str(), tokenizer, ROW_LEN)
}

} // verus!

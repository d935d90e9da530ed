//! Of the command line, of what training starts from, and of the sizes.
use vstd::prelude::*;

use crate::cli::{before_flag, get_prompt, get_string, get_usize, parse_args, Mode};
use crate::data::LMData;
use crate::infer::GenerateConfig;
use crate::learning::{sentence_views, trained};
use crate::model::LMTransformerConfig;
use crate::text::parse_usize;
use crate::tokenizer::BpeTokenizer;
use crate::training::{dataset, new_tokenizer, take_lines};
use crate::vocabulary::string_views;

verus! {

/// Whether `i` is the number of the first argument that is `flag`, or of all arguments
/// where none is.
pub open spec fn first_at(args: Seq<String>, flag: Seq<char>, i: int) -> bool {
    &&& 0 <= i <= args.len()
    &&& forall|j: int| 0 <= j < i ==> (#[trigger] args[j])@ != flag
    &&& i < args.len() ==> args[i]@ == flag
}

proof fn lemma_first_at(args: Seq<Seq<char>>, flag: Seq<char>, i: int)
    requires
        0 <= i <= args.len(),
        forall|j: int| 0 <= j < i ==> #[trigger] args[j] != flag,
        i < args.len() ==> args[i] == flag,
    ensures
        before_flag(args, flag) == i,
    decreases i,
{
    if i > 0 {
        assert(args[0] != flag);
        let rest = args.drop_first();
        assert forall|j: int| 0 <= j < i - 1 implies #[trigger] rest[j] != flag by {
            assert(rest[j] == args[j + 1]);
        }
        lemma_first_at(rest, flag, i - 1);
    }
}

/// The value of a flag is the argument behind the first one that is the flag.
pub proof fn law_flag_value(args: &[String], flag: &str, i: int, r: Option<String>)
    requires
        first_at(args@, flag@, i),
        call_ensures(get_string, (args, flag), r),
    ensures
        match r {
            Some(s) => i + 1 < args@.len() && s@ == args@[i + 1]@,
            None => i + 1 >= args@.len(),
        },
{
    let views = string_views(args@);
    assert forall|j: int| 0 <= j < i implies #[trigger] views[j] != flag@ by {
        assert(args@[j]@ != flag@);
    }
    lemma_first_at(views, flag@, i);
}

/// The number of a flag is what its value stands for, and the default where it has no value
/// or one that is no number.
pub proof fn law_flag_number(
    args: &[String],
    flag: &str,
    default: usize,
    r: Option<String>,
    value: &str,
    q: Option<usize>,
    n: usize,
)
    requires
        call_ensures(get_string, (args, flag), r),
        r matches Some(s) ==> value@ == s@,
        call_ensures(parse_usize, (value,), q),
        call_ensures(get_usize, (args, flag, default), n),
    ensures
        n == match (r, q) {
            (Some(_), Some(k)) => k,
            _ => default,
        },
{
}

/// The prompt is the value of its flag, else the third argument, else a greeting.
pub proof fn law_prompt(args: &[String], flag: &str, r: Option<String>, s: String)
    requires
        flag@ == "--prompt"@,
        call_ensures(get_string, (args, flag), r),
        call_ensures(get_prompt, (args,), s),
    ensures
        r matches Some(v) ==> s@ == v@,
        r is None && args@.len() > 2 ==> s@ == args@[2]@,
        r is None && args@.len() <= 2 ==> s@ == "Привет"@,
{
}

/// Whether one of the arguments is `word`.
pub open spec fn has_word(args: Seq<String>, word: Seq<char>) -> bool {
    exists|i: int| 0 <= i < args.len() && (#[trigger] args[i])@ == word
}

proof fn lemma_has_word(args: Seq<String>, word: Seq<char>)
    ensures
        has_word(args, word) <==> string_views(args).contains(word),
{
    let views = string_views(args);
    if has_word(args, word) {
        let i = choose|i: int| 0 <= i < args.len() && (#[trigger] args[i])@ == word;
        assert(views[i] == word);
    }
    if views.contains(word) {
        let i = choose|i: int| 0 <= i < views.len() && views[i] == word;
        assert(args[i]@ == word);
    }
}

/// The contents of an optional string.
pub open spec fn text_of(s: Option<String>) -> Option<Seq<char>> {
    match s {
        Some(t) => Some(t@),
        None => None,
    }
}

/// The command line asks for inference by one of two words, with the prompt and the
/// settings that the flags give; else it asks for training.
pub proof fn law_command_line(
    args: &[String],
    m: Mode,
    prompt: String,
    flags: Seq<&str>,
    steps: usize,
    temp: Option<String>,
    topk: usize,
    topp: Option<String>,
    maxlen: usize,
    data: Option<String>,
)
    requires
        call_ensures(parse_args, (args,), m),
        flags.len() == 6,
        flags[0]@ == "--steps"@,
        flags[1]@ == "--temp"@,
        flags[2]@ == "--topk"@,
        flags[3]@ == "--topp"@,
        flags[4]@ == "--maxlen"@,
        flags[5]@ == "--data"@,
        call_ensures(get_prompt, (args,), prompt),
        call_ensures(get_usize, (args, flags[0], 100usize), steps),
        call_ensures(get_string, (args, flags[1]), temp),
        call_ensures(get_usize, (args, flags[2], 40usize), topk),
        call_ensures(get_string, (args, flags[3]), topp),
        call_ensures(get_usize, (args, flags[4], 128usize), maxlen),
        call_ensures(get_string, (args, flags[5]), data),
    ensures
        m is Infer <==> has_word(args@, "--infer"@) || has_word(args@, "infer"@),
        match m {
            Mode::Infer { prompt: p, config } => {
                &&& p@ == prompt@
                &&& config.max_steps == steps
                &&& text_of(config.temperature) == text_of(temp)
                &&& config.top_k == topk
                &&& text_of(config.top_p) == text_of(topp)
                &&& config.max_len == maxlen
            },
            Mode::Train { data_path } => text_of(data_path) == text_of(data),
        },
{
    lemma_has_word(args@, "--infer"@);
    lemma_has_word(args@, "infer"@);
}

/// Training a tokenizer is training what it knows on the sentences, all of them, in order;
/// its special tokens stay.
pub proof fn law_tokenizer_is_trained(t: &mut BpeTokenizer, sentences: &[&str], target: usize)
    requires
        call_ensures(BpeTokenizer::train, (t, sentences, target), ()),
    ensures
        final(t)@ == trained(
            old(t)@,
            Seq::new(sentences@.len(), |i: int| sentences@[i]@),
            target as nat,
        ),
        final(t).pad_token == old(t).pad_token,
        final(t).bos_token == old(t).bos_token,
        final(t).eos_token == old(t).eos_token,
        final(t).unk_token == old(t).unk_token,
{
    assert(sentence_views(sentences@) =~= Seq::new(sentences@.len(), |i: int| sentences@[i]@));
}

/// A tokenizer for a text is a new one, trained on the first 2000 lines of the text as one
/// sentence, up to 12000 texts.
pub proof fn law_tokenizer_of_a_text(
    raw: &str,
    lines: String,
    fresh: BpeTokenizer,
    t: BpeTokenizer,
)
    requires
        call_ensures(take_lines, (raw, 2000usize), lines),
        call_ensures(BpeTokenizer::new, (), fresh),
        call_ensures(new_tokenizer, (raw,), t),
    ensures
        t@ == trained(fresh@, seq![lines@], 12000),
        t.pad_token == fresh.pad_token,
        t.bos_token == fresh.bos_token,
        t.eos_token == fresh.eos_token,
        t.unk_token == fresh.unk_token,
{
}

/// The data set of a text has the examples of its first 999999 lines, in rows of 128 ids.
pub proof fn law_dataset_of_a_text(
    raw: &str,
    t: BpeTokenizer,
    lines: String,
    text: &str,
    d: LMData,
    e: LMData,
)
    requires
        call_ensures(take_lines, (raw, 999_999usize), lines),
        text@ == lines@,
        call_ensures(LMData::from_text, (text, &t, 128usize), e),
        call_ensures(dataset, (raw, &t), d),
    ensures
        d@ == e@,
{
}

/// The model has 256 dimensions, 8 heads, 6 layers, and feed-forward layers four times as
/// wide.
pub proof fn law_size_of_the_model(
    vocab_size: usize,
    max_len: usize,
    c: LMTransformerConfig,
    any: LMTransformerConfig,
    n: usize,
)
    requires
        call_ensures(LMTransformerConfig::standard, (vocab_size, max_len), c),
        4 * any.d_model <= usize::MAX,
        call_ensures(LMTransformerConfig::d_ff, (&any,), n),
    ensures
        c.d_model == 256,
        c.n_heads == 8,
        c.n_layers == 6,
        c.vocab_size == vocab_size,
        c.max_len == max_len,
        n == any.d_model + any.d_model + any.d_model + any.d_model,
{
}

/// A configuration is copied as it is.
pub proof fn law_configuration_is_copied(c: GenerateConfig, d: GenerateConfig)
    requires
        call_ensures(GenerateConfig::clone, (&c,), d),
    ensures
        d.max_steps == c.max_steps,
        text_of(d.temperature) == text_of(c.temperature),
        d.top_k == c.top_k,
        text_of(d.top_p) == text_of(c.top_p),
        d.max_len == c.max_len,
{
}

} // verus!

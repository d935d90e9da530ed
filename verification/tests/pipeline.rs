use std::sync::Arc;

use bpe_lm::cli::{get_prompt, get_string, get_usize, parse_args, Mode};
use bpe_lm::data::{LMBatcher, LMData, LMExample};
use bpe_lm::infer::{GenerateConfig, Generation, Outcome};
use bpe_lm::model::LMTransformerConfig;
use bpe_lm::sampling::{drawn_token, nucleus, rank_tokens, sample_token};
use bpe_lm::tokenizer::{BpeTokenizer, TokenizerParts};
use bpe_lm::training::{dataset, new_tokenizer, MAX_DATASET_LINES, ROW_LEN};

/// A tokenizer of the letters, without rules; `a` has the id 4.
fn letters() -> BpeTokenizer {
    let mut ivocab: Vec<String> = vec!["<pad>", "<bos>", "<eos>", "<unk>"]
        .into_iter()
        .map(String::from)
        .collect();
    ivocab.extend(('a'..='z').map(|c| c.to_string()));
    let vocab = ivocab.iter().cloned().enumerate().map(|(i, s)| (s, i)).collect();
    BpeTokenizer::from_parts(TokenizerParts {
        vocab,
        ivocab,
        merges: Vec::new(),
        pad_token: 0,
        bos_token: 1,
        eos_token: 2,
        unk_token: 3,
    })
}

fn args(list: &[&str]) -> Vec<String> {
    list.iter().map(|s| s.to_string()).collect()
}

fn config(max_steps: usize, max_len: usize) -> GenerateConfig {
    GenerateConfig { max_steps, max_len, ..GenerateConfig::default() }
}

#[test]
fn a_text_is_cut_into_examples() {
    let d = LMData::from_text("abcdefgh", &letters(), 3);
    assert_eq!(d.len(), 3);
    assert_eq!(d.examples[0].input_ids, vec![4, 5, 6]);
    assert_eq!(d.examples[0].target_ids, vec![5, 6, 0]);
    assert_eq!(d.examples[2].input_ids, vec![10, 11, 0]);
    assert_eq!(d.examples[2].target_ids, vec![11, 0, 0]);
}

#[test]
fn a_chunk_of_one_id_makes_no_example() {
    assert_eq!(LMData::from_text("abcd", &letters(), 3).len(), 1);
    assert_eq!(LMData::from_text("abc", &letters(), 1).len(), 0);
    assert_eq!(LMData::from_text("", &letters(), 4).len(), 0);
    assert_eq!(LMData::from_text("a", &letters(), 4).len(), 0);
}

#[test]
fn targets_are_shifted_inputs() {
    let d = LMData::from_text("thequickbrownfoxjumps", &letters(), 5);
    for e in &d.examples {
        assert_eq!(e.input_ids.len(), 5);
        assert_eq!(e.target_ids.len(), 5);
        assert_eq!(e.target_ids[..4], e.input_ids[1..]);
        assert_eq!(e.target_ids[4], 0);
    }
}

#[test]
fn examples_stay_below_the_vocabulary() {
    let t = letters();
    let d = LMData::from_text("zebra? zoo!", &t, 4);
    assert_eq!(d.len(), 3);
    for e in &d.examples {
        assert!(e.input_ids.iter().all(|&id| (id as usize) < t.vocab_size()));
        assert!(e.target_ids.iter().all(|&id| (id as usize) < t.vocab_size()));
    }
}

#[test]
fn chunks_make_up_the_ids() {
    let t = letters();
    let text = "thequickbrownfoxjumps";
    let d = LMData::from_text(text, &t, 4);
    let all: Vec<usize> =
        d.examples.iter().flat_map(|e| e.input_ids.iter().map(|&id| id as usize)).collect();
    // The last letter stands alone in its chunk, which makes no example.
    assert_eq!(all, t.encode(text)[..20].to_vec());
}

#[test]
fn examples_are_handed_out_as_copies() {
    let d = LMData::from_text("abcdef", &letters(), 3);
    let e = d.get(1).unwrap();
    assert_eq!(e.input_ids, vec![7, 8, 9]);
    assert!(d.get(2).is_none());
    assert_eq!(d.clone().len(), 2);
}

#[test]
fn a_split_loses_nothing() {
    let d = LMData::from_text("abcdefghij", &letters(), 2);
    let (train, test) = d.clone().split(4);
    assert_eq!((train.len(), test.len()), (4, 1));
    assert_eq!(train.examples[3].input_ids, vec![10, 11]);
    assert_eq!(test.examples[0].input_ids, vec![12, 13]);
    let (train, test) = d.clone().split(0);
    assert_eq!((train.len(), test.len()), (0, 5));
    let (train, test) = d.split(5);
    assert_eq!((train.len(), test.len()), (5, 0));
}

#[test]
fn a_batch_is_a_matrix() {
    let d = LMData::from_text("abcdef", &letters(), 3);
    let b = LMBatcher::new(Arc::new(letters()), 3).clone().batch(d.examples);
    assert_eq!(b.inputs, vec![4, 5, 6, 7, 8, 9]);
    assert_eq!(b.targets, vec![5, 6, 0, 8, 9, 0]);
    assert_eq!((b.batch_size, b.max_len), (2, 3));
    assert_eq!(b.inputs.len(), b.batch_size * b.max_len);
}

#[test]
fn large_ids_wrap_in_a_batch() {
    let e = LMExample { input_ids: vec![u64::MAX], target_ids: vec![1 << 63] };
    let b = LMBatcher::new(Arc::new(letters()), 1).batch(vec![e]);
    assert_eq!(b.inputs, vec![-1]);
    assert_eq!(b.targets, vec![i64::MIN]);
}

#[test]
fn the_default_configuration() {
    let c = GenerateConfig::default();
    assert_eq!((c.max_steps, c.top_k, c.max_len), (100, 40, 128));
    assert_eq!((c.temperature, c.top_p), (None, None));
}

#[test]
fn generation_goes_on_until_the_end_token() {
    let t = letters();
    let mut g = Generation::start(&t, "ab", &config(10, 20));
    assert_eq!(g.next_input(), Some(vec![4, 5]));
    assert_eq!(g.accept(6), Outcome::Added { report: true });
    assert_eq!(g.next_input(), Some(vec![4, 5, 6]));
    assert_eq!(g.accept(7), Outcome::Added { report: false });
    assert_eq!(g.accept(2), Outcome::Ended);
    assert_eq!(g.next_input(), None);
    assert_eq!(g.finish(&t), "abcd");
}

#[test]
fn generation_stops_at_its_limits() {
    let t = letters();
    let mut g = Generation::start(&t, "ab", &config(3, 20));
    let mut asked = 0;
    while g.next_input().is_some() {
        asked += 1;
        g.accept(25);
    }
    assert_eq!(asked, 3);
    assert_eq!(g.ids, vec![4, 5, 25, 25, 25]);
    let mut g = Generation::start(&t, "ab", &config(100, 4));
    while g.next_input().is_some() {
        g.accept(25);
    }
    assert_eq!(g.ids.len(), 4);
    assert_eq!(Generation::start(&t, "abcde", &config(100, 4)).next_input(), None);
    assert_eq!(Generation::start(&t, "ab", &config(0, 4)).next_input(), None);
}

#[test]
fn progress_is_reported_at_every_tenth_step() {
    let t = letters();
    let mut g = Generation::start(&t, "a", &config(25, 100));
    let mut reports = Vec::new();
    for step in 0..25 {
        assert!(g.next_input().is_some());
        if g.accept(9) == (Outcome::Added { report: true }) {
            reports.push(step);
        }
    }
    assert_eq!(reports, vec![0, 10, 20]);
    assert_eq!(g.next_input(), None);
}

#[test]
fn an_empty_prompt_begins_with_the_begin_token() {
    let t = letters();
    let g = Generation::start(&t, "", &config(5, 5));
    assert_eq!(g.next_input(), Some(vec![1]));
    assert_eq!(g.finish(&t), "<bos>");
}

#[test]
fn tokens_are_ranked_by_key() {
    assert_eq!(rank_tokens(&vec![5, 9, 5, 0, 9]), vec![1, 4, 0, 2, 3]);
    assert_eq!(rank_tokens(&vec![]), Vec::<usize>::new());
    let keys: Vec<u32> = (0..1000u32).map(|i| i.wrapping_mul(2654435761) % 97).collect();
    let mut expected: Vec<usize> = (0..keys.len()).collect();
    expected.sort_by(|&a, &b| keys[b].cmp(&keys[a]));
    assert_eq!(rank_tokens(&keys), expected);
}

#[test]
fn keys_of_probabilities_rank_like_the_probabilities() {
    let probs: [f32; 6] = [0.1, 0.25, 0.0, 0.1, 1e-30, 0.55];
    let keys: Vec<u32> = probs.iter().map(|p| p.to_bits()).collect();
    assert_eq!(rank_tokens(&keys), vec![5, 1, 0, 3, 4, 2]);
}

#[test]
fn the_nucleus_ends_where_the_probability_is_reached() {
    let ranked = vec![7, 3, 5, 1];
    let reached = vec![false, false, true, true];
    assert_eq!(nucleus(&ranked, &reached, 40), vec![7, 3, 5]);
    assert_eq!(nucleus(&ranked, &reached, 2), vec![7, 3]);
    assert_eq!(nucleus(&ranked, &reached, 0), Vec::<usize>::new());
    assert_eq!(nucleus(&ranked, &vec![true; 4], 40), vec![7]);
    assert_eq!(nucleus(&ranked, &vec![false; 4], 40), ranked);
    assert_eq!(nucleus(&ranked, &vec![false], 1), vec![7]);
}

#[test]
fn the_draw_comes_from_the_nucleus() {
    let ranked = vec![7, 3, 5, 1];
    let reached = vec![false, false, true, true];
    let mut seen = Vec::new();
    for _ in 0..400 {
        let t = sample_token(&ranked, &reached, 40);
        assert!([7, 3, 5].contains(&t));
        if !seen.contains(&t) {
            seen.push(t);
        }
    }
    assert_eq!(seen.len(), 3);
    assert_eq!(sample_token(&ranked, &reached, 1), 7);
    assert_eq!(sample_token(&ranked, &reached, 0), 0);
    assert_eq!(sample_token(&vec![], &vec![], 40), 0);
}

#[test]
fn the_nucleus_is_most_probable() {
    let keys: Vec<u32> = vec![3, 9, 1, 9, 4];
    let ranked = rank_tokens(&keys);
    let inside = nucleus(&ranked, &vec![false, false, true, true, true], 40);
    assert_eq!(inside, vec![1, 3, 4]);
    for u in [0, 2] {
        assert!(inside.iter().all(|&t| keys[t] > keys[u]));
    }
    assert!(sample_token(&ranked, &vec![false; 5], 5) < keys.len());
}

#[test]
fn no_draw_is_token_zero() {
    assert_eq!(drawn_token(Some(9)), 9);
    assert_eq!(drawn_token(None), 0);
}

#[test]
fn training_is_the_default_mode() {
    match parse_args(&args(&["lm", "--data", "x.txt"])) {
        Mode::Train { data_path } => assert_eq!(data_path, Some("x.txt".to_string())),
        _ => panic!("training was asked for"),
    }
    match parse_args(&args(&["lm", "--data"])) {
        Mode::Train { data_path } => assert_eq!(data_path, None),
        _ => panic!("training was asked for"),
    }
}

#[test]
fn inference_reads_its_flags() {
    let a = args(&[
        "lm", "infer", "--prompt", "hi there", "--steps", "7", "--topk", "x", "--maxlen", "+64",
        "--temp", "0.5", "--steps", "8",
    ]);
    match parse_args(&a) {
        Mode::Infer { prompt, config } => {
            assert_eq!(prompt, "hi there");
            assert_eq!(config.max_steps, 7);
            assert_eq!(config.top_k, 40);
            assert_eq!(config.max_len, 64);
            assert_eq!(config.temperature, Some("0.5".to_string()));
            assert_eq!(config.top_p, None);
        }
        _ => panic!("inference was asked for"),
    }
    match parse_args(&args(&["lm", "--infer"])) {
        Mode::Infer { prompt, config } => {
            assert_eq!(prompt, "Привет");
            assert_eq!((config.max_steps, config.top_k, config.max_len), (100, 40, 128));
        }
        _ => panic!("inference was asked for"),
    }
}

#[test]
fn the_prompt_falls_back_to_the_third_argument() {
    assert_eq!(get_prompt(&args(&["lm", "infer", "hello"])), "hello");
    assert_eq!(get_prompt(&args(&["lm", "infer", "--prompt"])), "--prompt");
    assert_eq!(get_prompt(&args(&["lm", "infer"])), "Привет");
    assert_eq!(get_prompt(&args(&["lm", "--prompt", "p", "q"])), "p");
}

#[test]
fn the_first_flag_counts() {
    let a = args(&["--n", "1", "--n", "2"]);
    assert_eq!(get_string(&a, "--n"), Some("1".to_string()));
    assert_eq!(get_usize(&a, "--n", 9), 1);
    assert_eq!(get_usize(&a, "--m", 9), 9);
    assert_eq!(get_string(&[], "--n"), None);
    assert_eq!(get_usize(&args(&["--n", "-1"]), "--n", 9), 9);
}

#[test]
fn the_standard_model() {
    let c = LMTransformerConfig::standard(12000, 128);
    assert_eq!((c.d_model, c.n_heads, c.n_layers), (256, 8, 6));
    assert_eq!((c.vocab_size, c.max_len), (12000, 128));
    assert_eq!(c.d_ff(), 1024);
}

#[test]
fn training_starts_from_a_text() {
    let raw = "the cat sat\r\non the mat\n\nthe end";
    let t = new_tokenizer(raw);
    assert_eq!(t.unk_token, 3);
    assert!(t.vocab_size() > 4);
    let d = dataset(raw, &t);
    let whole = LMData::from_text("the cat sat\non the mat\n\nthe end", &t, ROW_LEN);
    assert_eq!(d.len(), whole.len());
    assert_eq!(d.examples[0].input_ids, whole.examples[0].input_ids);
    assert_eq!(d.examples[0].input_ids.len(), 128);
    assert_eq!(MAX_DATASET_LINES, 999_999);
}

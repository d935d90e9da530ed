use std::cmp::Reverse;
use std::collections::{BTreeMap, BinaryHeap};

use bpe_lm::agenda::{Agenda, Candidate};
use bpe_lm::frequency::most_frequent_pair;
use bpe_lm::pairs::{deserialize_merges, serialize_merges, PairMap};
use bpe_lm::tokenizer::{BpeTokenizer, TokenizerParts};
use bpe_lm::vocabulary::Vocabulary;

fn trained(sentences: &[&str], target: usize) -> BpeTokenizer {
    let mut t = BpeTokenizer::new();
    t.train(sentences, target);
    t
}

fn texts(t: &BpeTokenizer) -> Vec<String> {
    t.to_parts().ivocab
}

fn rules(t: &BpeTokenizer) -> BTreeMap<(usize, usize), usize> {
    t.to_parts().merges.into_iter().collect()
}

/// A tokenizer whose tokens are `texts`, with ids from 4 on, and whose rules are `merges`.
fn hand_made(texts: &[&str], merges: &[((usize, usize), usize)]) -> BpeTokenizer {
    let mut ivocab: Vec<String> = vec!["<pad>", "<bos>", "<eos>", "<unk>"]
        .into_iter()
        .map(String::from)
        .collect();
    ivocab.extend(texts.iter().map(|s| s.to_string()));
    let vocab = ivocab.iter().cloned().enumerate().map(|(i, s)| (s, i)).collect();
    BpeTokenizer::from_parts(TokenizerParts {
        vocab,
        ivocab,
        merges: merges.to_vec(),
        pad_token: 0,
        bos_token: 1,
        eos_token: 2,
        unk_token: 3,
    })
}

/// Merging by a heap over plain lists: the smallest id first, at equal ids from the right.
fn merge_by_lists(rules: &BTreeMap<(usize, usize), usize>, ids: &[usize]) -> Vec<usize> {
    let mut row: Vec<(usize, usize)> = ids.iter().copied().enumerate().collect();
    let mut heap: BinaryHeap<(Reverse<usize>, usize)> = BinaryHeap::new();
    for k in 1..row.len() {
        if let Some(&m) = rules.get(&(row[k - 1].1, row[k].1)) {
            heap.push((Reverse(m), row[k - 1].0));
        }
    }
    while let Some((_, pos)) = heap.pop() {
        let k = match row.iter().position(|t| t.0 == pos) {
            Some(k) if k + 1 < row.len() => k,
            _ => continue,
        };
        if let Some(&m) = rules.get(&(row[k].1, row[k + 1].1)) {
            row[k].1 = m;
            row.remove(k + 1);
            if k > 0 {
                if let Some(&m) = rules.get(&(row[k - 1].1, row[k].1)) {
                    heap.push((Reverse(m), row[k - 1].0));
                }
            }
            if k + 1 < row.len() {
                if let Some(&m) = rules.get(&(row[k].1, row[k + 1].1)) {
                    heap.push((Reverse(m), row[k].0));
                }
            }
        }
    }
    row.into_iter().map(|t| t.1).collect()
}

fn next_random(state: &mut u64) -> usize {
    *state = state.wrapping_mul(6364136223846793005).wrapping_add(1442695040888963407);
    (*state >> 33) as usize
}

#[test]
fn a_new_tokenizer_knows_the_special_tokens() {
    let t = BpeTokenizer::new();
    assert_eq!(t.vocab_size(), 4);
    assert_eq!(texts(&t), vec!["<pad>", "<bos>", "<eos>", "<unk>"]);
    assert_eq!((t.pad_token, t.bos_token, t.eos_token, t.unk_token), (0, 1, 2, 3));
    assert!(rules(&t).is_empty());
}

#[test]
fn the_texts_of_a_corpus_get_ids_in_turn() {
    let t = trained(&["  ab a\tb  ", " \n "], 0);
    assert_eq!(
        texts(&t)[4..].to_vec(),
        vec!["\u{120}a", "b", " ", "\u{120}b"]
    );
    assert_eq!(t.vocab_size(), 8);
    assert!(rules(&t).is_empty());
}

#[test]
fn training_merges_the_most_frequent_pair() {
    let t = trained(&["xa xa xa ya"], 11);
    // Ids: 4 = mark + x, 5 = a, 6 = blank, 7 = mark + y. "a" and the blank are side by side
    // most often.
    assert_eq!(texts(&t)[4..8].to_vec(), vec!["\u{120}x", "a", " ", "\u{120}y"]);
    assert_eq!(texts(&t)[8], "a ");
    assert_eq!(rules(&t).get(&(5, 6)), Some(&8));
    // Next come mark + x in front of that, and then this token in front of itself, which
    // loses the mark in the middle.
    assert_eq!(texts(&t)[9], "\u{120}xa ");
    assert_eq!(rules(&t).get(&(4, 8)), Some(&9));
    assert_eq!(texts(&t)[10], "\u{120}xa xa ");
    assert_eq!(rules(&t).get(&(9, 9)), Some(&10));
    assert_eq!(t.vocab_size(), 11);
}

#[test]
fn training_stops_when_every_row_is_one_token() {
    let t = trained(&["ab", "cd"], 1000);
    assert!(t.vocab_size() < 1000);
    assert!(texts(&t).contains(&"\u{120}ab ".to_string()));
    assert!(texts(&t).contains(&"\u{120}cd ".to_string()));
}

#[test]
fn a_merge_that_is_a_known_text_uses_its_id() {
    // The word mark itself as a character: "a" with it is "a" again.
    let t = trained(&["xa\u{120}"], 1000);
    let all = texts(&t);
    let mut sorted = all.clone();
    sorted.sort();
    sorted.dedup();
    assert_eq!(sorted.len(), all.len());
    let a = all.iter().position(|s| s == "\u{120}x").unwrap();
    let b = all.iter().position(|s| s == "a").unwrap();
    assert!(rules(&t).contains_key(&(a, b)));
    for (p, m) in rules(&t) {
        let right = all[p.1].trim_start_matches('\u{120}');
        assert_eq!(all[m], format!("{}{}", all[p.0], right));
    }
}

#[test]
fn training_again_keeps_ids_and_rules() {
    let mut t = trained(&["low lower lowest"], 30);
    let before = texts(&t);
    let old_rules = rules(&t);
    t.train(&["new newer low"], 60);
    assert_eq!(texts(&t)[..before.len()].to_vec(), before);
    for (p, m) in old_rules {
        assert_eq!(rules(&t).get(&p), Some(&m));
    }
    for (i, s) in texts(&t).iter().enumerate() {
        assert_eq!(t.lexicon.vocab.get(s), Some(i));
    }
    assert_eq!(t.vocab_size(), texts(&t).len());
    assert!(t.vocab_size() <= 60);
}

#[test]
fn encoding_merges_the_smallest_id_first() {
    // 4 = a, 5 = b, 6 = c, 7 = bc, 8 = ab
    let t = hand_made(&["a", "b", "c", "bc", "ab"], &[((4, 5), 8), ((5, 6), 7)]);
    assert_eq!(t.encode("abc"), vec![4, 7]);
    assert_eq!(t.encode("ab"), vec![8]);
}

#[test]
fn encoding_merges_equal_ids_from_the_right() {
    // 4 = a, 5 = aa
    let t = hand_made(&["a", "aa"], &[((4, 4), 5)]);
    assert_eq!(t.encode("aaa"), vec![4, 5]);
    assert_eq!(t.encode("aaaa"), vec![5, 5]);
    assert_eq!(t.encode("aaaaa"), vec![4, 5, 5]);
}

#[test]
fn encoding_marks_unknown_characters() {
    let t = hand_made(&["a"], &[]);
    assert_eq!(t.encode("a?a"), vec![4, 3, 4]);
    assert_eq!(t.encode(""), Vec::<usize>::new());
    assert_eq!(t.encode("?"), vec![3]);
    let mut u = hand_made(&["a"], &[]);
    u.unk_token = 0;
    assert_eq!(u.encode("a?"), vec![4, 0]);
}

#[test]
fn encoding_agrees_with_lists() {
    let mut state: u64 = 7;
    let letters = ["a", "b", "c"];
    for _ in 0..60 {
        let mut names: Vec<String> = letters.iter().map(|s| s.to_string()).collect();
        let mut merges: Vec<((usize, usize), usize)> = Vec::new();
        for _ in 0..12 {
            let l = next_random(&mut state) % names.len();
            let r = next_random(&mut state) % names.len();
            let text = format!("{}{}", names[l], names[r]);
            let id = match names.iter().position(|s| *s == text) {
                Some(i) => i,
                None => {
                    names.push(text);
                    names.len() - 1
                }
            };
            merges.push(((l + 4, r + 4), id + 4));
        }
        let refs: Vec<&str> = names.iter().map(|s| s.as_str()).collect();
        let t = hand_made(&refs, &merges);
        let len = next_random(&mut state) % 40;
        let text: String = (0..len).map(|_| letters[next_random(&mut state) % 3]).collect();
        let start: Vec<usize> = text.chars().map(|c| c as usize - 'a' as usize + 4).collect();
        let ids = t.encode(&text);
        assert_eq!(ids, merge_by_lists(&rules(&t), &start));
        for w in ids.windows(2) {
            assert!(!rules(&t).contains_key(&(w[0], w[1])));
        }
        assert!(ids.len() <= text.len());
        assert_eq!(ids.is_empty(), text.is_empty());
        assert_eq!(t.decode(&ids), text);
    }
}

#[test]
fn decoding_cleans_the_text() {
    let t = hand_made(&["\u{120}a", "b", " ", "\u{120}"], &[]);
    assert_eq!(t.decode(&[4, 5, 6, 4]), "ab a");
    assert_eq!(t.decode(&[7, 7, 5, 7, 7, 7, 5, 6]), "b  b");
    assert_eq!(t.decode(&[6, 6]), "");
    assert_eq!(t.decode(&[]), "");
    assert_eq!(t.decode(&[1, 5, 2]), "<bos>b<eos>");
}

#[test]
fn decoding_skips_unknown_ids() {
    let t = hand_made(&["a", "b"], &[]);
    assert_eq!(t.decode(&[4, 99, 5, usize::MAX]), "ab");
}

#[test]
fn decoding_undoes_encoding() {
    let t = trained(&["the cat sat on the mat and the rat sat on the cat"], 60);
    // The first letter of a word is known with the mark only, so these words begin with
    // letters that are also inside words.
    let text = "ana tan eat  nat";
    assert_eq!(t.decode(&t.encode(text)), "ana tan eat nat");
    assert_eq!(t.decode(&t.encode("tan")), "tan");
    assert_eq!(t.decode(&t.encode("taXn")), "ta<unk>n");
}

#[test]
fn encoding_uses_learned_rules() {
    // "a" in front of a blank is the most frequent pair, and gets the next id.
    let t = trained(&["xa ya za"], 40);
    let a = t.encode("a")[0];
    let joined = rules(&t)[&(a, t.encode(" ")[0])];
    assert_eq!(texts(&t)[joined], "a ");
    let ids = t.encode("a a a");
    assert_eq!(ids, vec![joined, joined, a]);
    assert_eq!(t.decode(&ids), "a a a");
}

#[test]
fn encoded_ids_are_known() {
    let t = trained(&["the cat sat on the mat and the rat sat on the cat"], 60);
    for text in ["the cat", "unknown: \u{120}?!", "taken at tan", ""] {
        assert!(t.encode(text).iter().all(|&id| id < t.vocab_size()));
    }
}

#[test]
fn parts_give_the_tokenizer_back() {
    let mut t = trained(&["low lower lowest", "new newer"], 40);
    t.unk_token = 1;
    let p = t.to_parts();
    let (vocab, ivocab, merges) = (p.vocab.clone(), p.ivocab.clone(), p.merges.clone());
    let u = BpeTokenizer::from_parts(p);
    let q = u.to_parts();
    assert_eq!(q.vocab, vocab);
    assert_eq!(q.ivocab, ivocab);
    assert_eq!(q.merges, merges);
    assert_eq!((q.pad_token, q.bos_token, q.eos_token, q.unk_token), (0, 1, 2, 1));
    assert_eq!(t.encode("newest low?"), u.encode("newest low?"));
}

#[test]
fn the_last_entry_of_a_key_counts() {
    let m = deserialize_merges(&vec![((1, 2), 3), ((4, 5), 6), ((1, 2), 7)]);
    assert_eq!(m.get((1, 2)), Some(7));
    assert_eq!(m.get((4, 5)), Some(6));
    assert_eq!(m.get((2, 1)), None);
    assert_eq!(serialize_merges(&m), vec![((1, 2), 7), ((4, 5), 6)]);
    let v = Vocabulary::from_entries(vec![
        ("a".to_string(), 1),
        ("b".to_string(), 2),
        ("a".to_string(), 3),
    ]);
    assert_eq!(v.get("a"), Some(3));
    assert_eq!(v.len(), 2);
    assert_eq!(v.entries(), vec![("a".to_string(), 3), ("b".to_string(), 2)]);
}

#[test]
fn pairs_of_large_ids_stay_apart() {
    let mut m = PairMap::new();
    m.insert((usize::MAX, 0), 1);
    m.insert((0, usize::MAX), 2);
    m.insert((usize::MAX, usize::MAX), 3);
    assert_eq!(m.get((usize::MAX, 0)), Some(1));
    assert_eq!(m.get((0, usize::MAX)), Some(2));
    assert_eq!(m.get((usize::MAX, usize::MAX)), Some(3));
    assert_eq!(m.get((0, 0)), None);
    assert_eq!(m.len(), 3);
    assert_eq!(m.key(1), (0, usize::MAX));
}

#[test]
fn the_first_of_the_most_frequent_pairs_leads() {
    assert_eq!(most_frequent_pair(&vec![(1, 1), (2, 2), (3, 3), (3, 3), (2, 2)]), (2, 2));
    assert_eq!(most_frequent_pair(&vec![(9, 1), (2, 2)]), (9, 1));
}

#[test]
fn the_agenda_serves_in_order() {
    let mut state: u64 = 3;
    let mut agenda = Agenda::new();
    let mut expected: Vec<(usize, Reverse<usize>)> = Vec::new();
    for _ in 0..200 {
        let c = Candidate {
            priority: next_random(&mut state) % 10,
            pos: next_random(&mut state) % 10,
        };
        agenda.push(c);
        expected.push((c.priority, Reverse(c.pos)));
    }
    expected.sort();
    for (priority, Reverse(pos)) in expected {
        assert_eq!(agenda.pop(), Some(Candidate { priority, pos }));
    }
    assert_eq!(agenda.pop(), None);
}

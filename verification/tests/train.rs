use bpe_trainer::trainer::{BpeTrainer, BPE};
use bpe_trainer::word::Pair;
use std::collections::HashMap;

fn corpus(words: &[(&str, u64)]) -> Vec<(String, u64)> {
    words.iter().map(|(w, c)| (w.to_string(), *c)).collect()
}

fn vocab_of(model: &BPE) -> HashMap<String, u32> {
    model.get_vocab().into_iter().collect()
}

fn merges_of(model: &BPE) -> HashMap<Pair, (u32, u32)> {
    model
        .merges
        .iter()
        .enumerate()
        .map(|(rank, (pair, id))| (*pair, (rank as u32, *id)))
        .collect()
}

#[test]
fn test_train() {
    let word_counts = corpus(&[
        ("roses", 1),
        ("are", 2),
        ("red", 1),
        ("voilets", 1),
        ("blue", 1),
        ("BERT", 1),
        ("is", 2),
        ("big", 1),
        ("and", 1),
        ("so", 1),
        ("GPT-2", 1),
    ]);
    let trainer = BpeTrainer::builder()
        .show_progress(false)
        .min_frequency(2)
        .build();
    let mut model = BPE::new();
    trainer.do_train(&word_counts, &None, &mut model).unwrap();

    // Vocab should contain all of the characters from the `word_counts` mapping
    // as well as three merges: 're', 'are', and 'is'.
    let expected_vocab: HashMap<String, u32> = [
        ("-".into(), 0),
        ("2".into(), 1),
        ("B".into(), 2),
        ("E".into(), 3),
        ("G".into(), 4),
        ("P".into(), 5),
        ("R".into(), 6),
        ("T".into(), 7),
        ("a".into(), 8),
        ("b".into(), 9),
        ("d".into(), 10),
        ("e".into(), 11),
        ("g".into(), 12),
        ("i".into(), 13),
        ("l".into(), 14),
        ("n".into(), 15),
        ("o".into(), 16),
        ("r".into(), 17),
        ("s".into(), 18),
        ("t".into(), 19),
        ("u".into(), 20),
        ("v".into(), 21),
        ("re".into(), 22),
        ("are".into(), 23),
        ("is".into(), 24),
    ]
    .iter()
    .cloned()
    .collect();
    assert_eq!(vocab_of(&model), expected_vocab);

    // The keys in `merges` are pairs of symbols, the values are tuples of (rank, id),
    // where 'rank' determines the order in which this merge will be applied during
    // tokenization, and 'id' is the vocab id of the symbol resulting from merging
    // the pair of symbols in the corresponding key.
    let expected_merges: HashMap<Pair, (u32, u32)> = [
        ((17, 11), (0, 22)), // 'r' + 'e'  -> 're'
        ((8, 22), (1, 23)),  // 'a' + 're' -> 'are'
        ((13, 18), (2, 24)), // 'i' + 's'  -> 'is'
    ]
    .iter()
    .cloned()
    .collect();
    assert_eq!(merges_of(&model), expected_merges);
}

#[test]
fn bpe_test_max_token_length_16() {
    let max_token_length = 16;
    let long_word_counts = corpus(&[
        ("singlelongtokenwithoutcasechange", 2),
        ("singleLongTokenWithCamelCaseChange", 2),
        ("Longsingletokenwithpunctu@t!onwithin", 2),
        ("Anotherlongsingletokenwithnumberw1th1n", 2),
        ("짧은한글문자열짧은한", 2),
        ("긴한글문자열긴한글문자열긴한글문", 2),
        ("短字符串短字符串短字", 2),
        ("长字符串长字符串长字符串长字符串", 2),
        ("短い文字列短い文字列", 2),
        ("長い文字列長い文字列長い文字列長", 2),
        ("so", 2),
        ("GPT-2", 2),
    ]);
    let trainer = BpeTrainer::builder()
        .max_token_length(Some(max_token_length))
        .show_progress(false)
        .min_frequency(0)
        .build();
    let mut model = BPE::new();
    trainer.do_train(&long_word_counts, &None, &mut model).unwrap();
    let vocab = vocab_of(&model);
    for token in vocab.keys() {
        assert!(
            token.chars().count() <= max_token_length,
            "token too long : {} , chars().count() = {}",
            token,
            token.chars().count()
        )
    }
}

#[test]
fn bpe_test_max_token_length_direct_assert() {
    let long_word_counts = corpus(&[
        ("sin", 2),
        ("Sin", 2),
        ("Lon", 2),
        ("Ano", 2),
        ("짧은한", 2),
        ("긴한글", 2),
        ("短字符", 2),
        ("长字符", 2),
        ("短い文", 2),
        ("長い文", 2),
        ("so", 2),
        ("GP", 2),
    ]);
    let trainer = BpeTrainer::builder()
        .max_token_length(Some(2))
        .show_progress(false)
        .min_frequency(0)
        .build();
    let mut model = BPE::new();
    trainer.do_train(&long_word_counts, &None, &mut model).unwrap();
    let trained_vocab: HashMap<String, u32> = vocab_of(&model);
    let expected_vocab: HashMap<String, u32> = [
        ("短", 12),
        ("n", 6),
        ("i", 5),
        ("s", 8),
        ("字符", 23),
        ("長", 14),
        ("긴", 17),
        ("い文", 22),
        ("L", 2),
        ("in", 21),
        ("o", 7),
        ("은한", 29),
        ("S", 4),
        ("P", 3),
        ("so", 27),
        ("符", 13),
        ("文", 11),
        ("字", 10),
        ("짧", 19),
        ("GP", 25),
        ("글", 16),
        ("G", 1),
        ("An", 24),
        ("长", 15),
        ("A", 0),
        ("Lo", 26),
        ("긴한", 28),
        ("い", 9),
        ("한", 20),
        ("은", 18),
    ]
    .iter()
    .cloned()
    .map(|(k, v)| (k.to_string(), v))
    .collect();
    assert_eq!(trained_vocab, expected_vocab)
}

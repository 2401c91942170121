use bpe_trainer::heap::{Key, KeyHeap};
use bpe_trainer::queue::MergeQueue;
use bpe_trainer::rules::MergeFilters;
use bpe_trainer::table::Merge;
use bpe_trainer::text::chars_of;
use bpe_trainer::trainer::{AddedToken, BpeTrainer, BpeTrainerBuilder, TrainError, BPE};
use bpe_trainer::vocab::Vocab;
use bpe_trainer::word::Word;

fn words_of(words: &[(&str, u64)]) -> Vec<(String, u64)> {
    words.iter().map(|(w, c)| (w.to_string(), *c)).collect()
}

fn vocab_of(symbols: &[&str]) -> Vocab {
    let mut v = Vocab::new();
    for s in symbols {
        v.intern(chars_of(s));
    }
    v
}

#[test]
fn builder_starts_from_the_defaults() {
    let t = BpeTrainerBuilder::new().build();
    assert_eq!(t.min_frequency, 0);
    assert_eq!(t.vocab_size, 30000);
    assert!(t.show_progress);
    assert!(t.special_tokens.is_empty());
    assert_eq!(t.limit_alphabet, None);
    assert!(t.initial_alphabet.is_empty());
    assert_eq!(t.continuing_subword_prefix, None);
    assert_eq!(t.end_of_word_suffix, None);
    assert_eq!(t.max_token_length, None);
    assert_eq!(t.filters, None);
    assert!(t.words.is_empty());
    assert!(t.should_show_progress());
    let d = BpeTrainer::default();
    assert_eq!((d.min_frequency, d.vocab_size), (0, 30000));
    let d = BpeTrainerBuilder::default().build();
    assert_eq!((d.min_frequency, d.vocab_size), (0, 30000));
}

#[test]
fn builder_sets_each_parameter() {
    let t = BpeTrainer::builder()
        .min_frequency(3)
        .vocab_size(77)
        .show_progress(false)
        .special_tokens(vec![AddedToken::from("<s>".to_string(), true)])
        .limit_alphabet(9)
        .initial_alphabet(vec!['x'])
        .continuing_subword_prefix("##".to_string())
        .end_of_word_suffix("</w>".to_string())
        .max_token_length(Some(16))
        .filters(Some(MergeFilters { sentinel_cap: true, digit_guard: false }))
        .build();
    assert_eq!(t.min_frequency, 3);
    assert_eq!(t.vocab_size, 77);
    assert!(!t.show_progress);
    assert!(!t.should_show_progress());
    assert_eq!(t.special_tokens.len(), 1);
    assert_eq!(t.special_tokens[0].content, "<s>");
    assert!(!t.special_tokens[0].normalized);
    assert_eq!(t.limit_alphabet, Some(9));
    assert_eq!(t.initial_alphabet, vec!['x']);
    assert_eq!(t.continuing_subword_prefix, Some("##".to_string()));
    assert_eq!(t.end_of_word_suffix, Some("</w>".to_string()));
    assert_eq!(t.max_token_length, Some(16));
    assert_eq!(
        t.filters,
        Some(MergeFilters { sentinel_cap: true, digit_guard: false })
    );
    assert_eq!(t.prefix_chars(), Some(vec!['#', '#']));
    assert_eq!(t.suffix_chars(), Some(chars_of("</w>")));

    let n = BpeTrainer::new(5, 100);
    assert_eq!((n.min_frequency, n.vocab_size), (5, 100));
    assert!(n.show_progress);
    let r = n.rules(MergeFilters { sentinel_cap: true, digit_guard: true });
    assert_eq!(r.min_frequency, 5);
    assert_eq!(r.vocab_size, 100);
    assert_eq!(r.max_token_length, usize::MAX);
    assert_eq!(r.prefix, None);
    assert!(r.filters.digit_guard && r.filters.sentinel_cap);
    let r = t.rules(MergeFilters { sentinel_cap: false, digit_guard: true });
    assert_eq!(r.max_token_length, 16);
    assert!(r.filters.sentinel_cap && !r.filters.digit_guard);
}

#[test]
fn words_are_encoded_with_their_markers() {
    let trainer = BpeTrainer::builder()
        .continuing_subword_prefix("##".to_string())
        .end_of_word_suffix("</w>".to_string())
        .build();
    let mut vocab = vocab_of(&["a", "b", "c"]);
    let (words, freqs) = trainer
        .tokenize_words(&words_of(&[("abc", 7), ("b", 2), ("", 1)]), &mut vocab)
        .unwrap();
    assert_eq!(freqs, vec![7, 2, 1]);
    assert_eq!(
        vocab.words(),
        vec!["a", "b", "c", "##b", "##c</w>", "b</w>"]
    );
    assert_eq!(words[0].get_chars(), vec![0, 3, 4]);
    assert_eq!(words[1].get_chars(), vec![5]);
    assert_eq!(words[2].get_chars(), Vec::<u32>::new());
    assert_eq!(words[0].symbol(2).len, 1);
}

#[test]
fn characters_outside_the_alphabet_are_left_out() {
    let trainer = BpeTrainer::builder()
        .continuing_subword_prefix("_".to_string())
        .build();
    let mut vocab = vocab_of(&["a", "c"]);
    let (words, _) = trainer
        .tokenize_words(&words_of(&[("abc", 1), ("bb", 1), ("ba", 1)]), &mut vocab)
        .unwrap();
    // The place of a character in its word decides on its marker, also
    // when the characters before it were left out.
    assert_eq!(vocab.words(), vec!["a", "c", "_c", "_a"]);
    assert_eq!(words[0].get_chars(), vec![0, 2]);
    assert_eq!(words[1].get_chars(), Vec::<u32>::new());
    assert_eq!(words[2].get_chars(), vec![3]);
}

#[test]
fn pairs_are_counted_with_the_frequency_of_their_words() {
    let trainer = BpeTrainer::builder().build();
    let word = |ids: &[u32]| {
        let mut w = Word::new();
        for id in ids {
            w.add(*id, 1);
        }
        w
    };
    let words = vec![word(&[0, 1, 0, 1]), word(&[1, 0]), word(&[2]), word(&[0, 1])];
    let (counts, table) = trainer.count_pairs(&words, &vec![3, 10, 9, 0]);
    assert_eq!(counts.get((0, 1)), 6);
    assert_eq!(counts.get((1, 0)), 13);
    assert_eq!(counts.get((2, 2)), 0);
    assert_eq!(table.len(), 2);
    assert_eq!(table.find((0, 1)), Some(0));
    assert_eq!(table.find((1, 0)), Some(1));
    assert_eq!(table.find((1, 1)), None);
    assert_eq!(table.entry(0).pos, vec![0, 3]);
    assert_eq!(table.entry(1).pos, vec![0, 1]);
    let queue = table.into_priced(&counts);
    assert_eq!(queue.len(), 2);
    assert_eq!((queue[0].pair, queue[0].count), ((0, 1), 6));
    assert_eq!((queue[1].pair, queue[1].count), ((1, 0), 13));
    assert!(queue[1].outranks(&queue[0]));
    assert!(!queue[0].outranks(&queue[1]));
    assert!(!queue[0].same_rank(&queue[1]));
    assert!(queue[0].same_rank(&queue[0]));

    // A pair that occurs in words without frequency only has no candidate.
    let (counts, table) = trainer.count_pairs(&vec![word(&[4, 5])], &vec![0]);
    assert_eq!(counts.get((4, 5)), 0);
    assert_eq!(table.len(), 1);
    assert!(table.into_priced(&counts).is_empty());
}

#[test]
fn fed_words_are_counted_in_the_order_of_their_first_arrival() {
    let mut trainer = BpeTrainer::builder().min_frequency(2).build();
    let seq = |ws: &[&str]| ws.iter().map(|w| w.to_string()).collect::<Vec<String>>();
    assert_eq!(
        trainer.feed(&vec![seq(&["so", "is", "so"]), seq(&[]), seq(&["is", "so", "big"])]),
        Ok(())
    );
    assert_eq!(
        trainer.words,
        vec![("so".to_string(), 3), ("is".to_string(), 2), ("big".to_string(), 1)]
    );
    assert_eq!(trainer.min_frequency, 2);
    // Feeding again starts the count anew.
    assert_eq!(trainer.feed(&vec![seq(&["red"])]), Ok(()));
    assert_eq!(trainer.words, vec![("red".to_string(), 1)]);
    assert_eq!(trainer.feed(&vec![]), Ok(()));
    assert!(trainer.words.is_empty());
}

#[test]
fn training_uses_the_words_that_were_fed() {
    let mut trainer = BpeTrainer::builder().min_frequency(2).build();
    let seq = |ws: &[&str]| ws.iter().map(|w| w.to_string()).collect::<Vec<String>>();
    trainer
        .feed(&vec![seq(&["is", "so", "is"]), seq(&["so", "is"])])
        .unwrap();
    let mut model = BPE::new();
    let tokens = trainer.train(&None, &mut model).unwrap();
    assert!(tokens.is_empty());
    let symbols: Vec<String> = model.get_vocab().into_iter().map(|(s, _)| s).collect();
    assert_eq!(symbols, vec!["i", "o", "s", "is", "so"]);
    assert_eq!(model.merges, vec![((0, 2), 3), ((2, 1), 4)]);
}

#[test]
fn errors_compare_by_kind_and_place() {
    assert_eq!(
        TrainError::MalformedEntry { line: 2 },
        TrainError::MalformedEntry { line: 2 }
    );
    assert_ne!(
        TrainError::MalformedEntry { line: 2 },
        TrainError::MalformedMerge { line: 2 }
    );
    assert_ne!(TrainError::VocabularyFull, TrainError::CorpusTooLarge);
    assert_eq!(AddedToken::from("x".to_string(), false).copy().content, "x");
    assert!(AddedToken::from("x".to_string(), false).normalized);
}

#[test]
fn the_queue_hands_out_the_candidate_with_the_best_key() {
    let entry = |pair: (u32, u32), count: i64| Merge { pair, count, pos: vec![] };
    let mut q = MergeQueue::new();
    assert_eq!(q.top(), None);
    q.push(entry((5, 5), 3));
    q.push(entry((2, 9), 7));
    q.push(entry((2, 8), 7));
    q.push(entry((2, 8), 7));
    q.push(entry((0, 0), 1));
    assert_eq!(q.len(), 5);
    // The highest count, then the smallest pair, then the first to come.
    let slot = q.top().unwrap();
    assert_eq!((q.entry(slot).pair, q.entry(slot).count), ((2, 8), 7));
    assert_eq!(slot, 2);
    // Priced anew, the candidate keeps its place among the waiting ones.
    q.reprice(slot, 2);
    assert_eq!(
        q.waiting(),
        vec![((5, 5), 3), ((2, 9), 7), ((2, 8), 2), ((2, 8), 7), ((0, 0), 1)]
    );
    let slot = q.top().unwrap();
    assert_eq!(slot, 3);
    assert_eq!(q.take(slot).pair, (2, 8));
    let slot = q.top().unwrap();
    assert_eq!(q.take(slot).pair, (2, 9));
    let slot = q.top().unwrap();
    assert_eq!(q.take(slot).pair, (5, 5));
    // A price that a candidate had before counts again when it is back.
    let slot = q.top().unwrap();
    assert_eq!((q.entry(slot).pair, q.entry(slot).count), ((2, 8), 2));
    q.reprice(slot, 9);
    q.reprice(slot, 0);
    q.extend(vec![entry((1, 1), 1), entry((1, 0), 1)]);
    let mut order = Vec::new();
    while let Some(slot) = q.top() {
        let m = q.take(slot);
        order.push((m.pair, m.count));
    }
    assert_eq!(
        order,
        vec![((0, 0), 1), ((1, 0), 1), ((1, 1), 1), ((2, 8), 0)]
    );
    assert_eq!(q.len(), 0);
}

#[test]
fn the_heap_hands_out_its_keys_in_order() {
    let mut h = KeyHeap::new();
    assert_eq!(h.peek(), None);
    assert_eq!(h.pop(), None);
    let counts = [5i64, -3, 9, 9, 0, 7, 9, 1, 9, 2];
    for (slot, count) in counts.iter().enumerate() {
        h.push(Key { count: *count, pair: (slot % 3) as u64, slot });
    }
    let mut seen = Vec::new();
    while let Some(k) = h.pop() {
        seen.push((k.count, k.pair, k.slot));
    }
    assert_eq!(
        seen,
        vec![
            (9, 0, 3),
            (9, 0, 6),
            (9, 2, 2),
            (9, 2, 8),
            (7, 2, 5),
            (5, 0, 0),
            (2, 0, 9),
            (1, 1, 7),
            (0, 1, 4),
            (-3, 1, 1)
        ]
    );
}

use bpe_trainer::discovery::Training;
use bpe_trainer::encoding::MAX_WEIGHT;
use bpe_trainer::listing::load_symbols;
use bpe_trainer::rules::MergeFilters;
use bpe_trainer::text::chars_of;
use bpe_trainer::trainer::{AddedToken, BpeTrainer, TrainError, BPE};
use bpe_trainer::training::ExtendSource;
use bpe_trainer::vocab::Vocab;
use bpe_trainer::word::{Pair, Word};

fn words_of(words: &[(&str, u64)]) -> Vec<(String, u64)> {
    words.iter().map(|(w, c)| (w.to_string(), *c)).collect()
}

fn symbols(model: &BPE) -> Vec<String> {
    model.get_vocab().into_iter().map(|(s, _)| s).collect()
}

fn source(merges: &str, alphabet: &str, special_tokens: &str) -> ExtendSource {
    ExtendSource {
        merges: merges.to_string(),
        alphabet: alphabet.to_string(),
        special_tokens: special_tokens.to_string(),
    }
}

fn copy_of(word: &Word) -> Word {
    let mut w = Word::new();
    for i in 0..word.len() {
        let s = word.symbol(i);
        w.add(s.c, s.len);
    }
    w
}

/// The run at the moment at which discovery starts from the words alone.
fn start(trainer: &BpeTrainer, words: &Vec<(String, u64)>) -> Training {
    let mut vocab = Vocab::new();
    trainer.add_special_tokens(&mut vocab).unwrap();
    trainer.compute_alphabet(words, &mut vocab).unwrap();
    let (encoded, freqs) = trainer.tokenize_words(words, &mut vocab).unwrap();
    trainer.start_discovery(vocab, encoded, freqs).unwrap()
}

const NO_FILTERS: MergeFilters = MergeFilters { sentinel_cap: false, digit_guard: false };

#[test]
fn digit_boundary_is_passed_over_when_going_on_from_listed_merges() {
    let words = words_of(&[("99", 5), ("ab", 3)]);
    let trainer = BpeTrainer::builder().build();
    let mut model = BPE::new();
    trainer
        .do_train_extend(&words, &source("#version: 0.2\n", "9 0\na 1\nb 2\n", ""), &mut model)
        .unwrap();
    assert_eq!(model.merges, vec![((1, 2), 3)]);
    assert_eq!(symbols(&model), vec!["9", "a", "b", "ab"]);
}

#[test]
fn digit_boundary_is_merged_when_training_from_the_words_alone() {
    let words = words_of(&[("99", 5), ("ab", 3)]);
    let trainer = BpeTrainer::builder().build();
    let mut model = BPE::new();
    trainer.do_train_original(&words, &mut model).unwrap();
    assert_eq!(model.merges, vec![((0, 0), 3), ((1, 2), 4)]);
    assert_eq!(symbols(&model), vec!["9", "a", "b", "99", "ab"]);
}

#[test]
fn filters_can_be_chosen_for_either_way_of_training() {
    let words = words_of(&[("99", 5), ("ab", 3)]);
    let guarded = BpeTrainer::builder()
        .filters(Some(MergeFilters { sentinel_cap: false, digit_guard: true }))
        .build();
    let mut model = BPE::new();
    guarded.do_train_original(&words, &mut model).unwrap();
    assert_eq!(symbols(&model), vec!["9", "a", "b", "ab"]);

    let open = BpeTrainer::builder().filters(Some(NO_FILTERS)).build();
    let mut model = BPE::new();
    open.do_train_extend(&words, &source("", "9 0\na 1\nb 2", ""), &mut model)
        .unwrap();
    assert_eq!(symbols(&model), vec!["9", "a", "b", "99", "ab"]);
}

#[test]
fn sentinel_cap_passes_over_symbols_of_too_many_words() {
    // Twenty-one words of one letter each, with a sentinel before each.
    let long: String = (0..21).map(|_| "Ġw").collect();
    let words = words_of(&[(&long, 4)]);
    let capped = BpeTrainer::builder()
        .filters(Some(MergeFilters { sentinel_cap: true, digit_guard: false }))
        .build();
    let mut model = BPE::new();
    capped.do_train_original(&words, &mut model).unwrap();
    let longest = symbols(&model)
        .iter()
        .map(|s| s.split('Ġ').filter(|g| !g.is_empty()).count())
        .max()
        .unwrap();
    assert!(longest <= 20);

    let open = BpeTrainer::builder().build();
    let mut model = BPE::new();
    open.do_train_original(&words, &mut model).unwrap();
    assert!(symbols(&model).contains(&long));
}

#[test]
fn listed_merges_are_replayed_even_without_occurrences() {
    let words = words_of(&[("xyz", 3)]);
    let trainer = BpeTrainer::builder().min_frequency(100).build();
    let mut model = BPE::new();
    trainer
        .do_train_extend(
            &words,
            &source(
                "#version: 0.2\nr e\na re\n",
                "a 0\ne 1\nr 2\nx 3\ny 4\nz 5\n",
                "",
            ),
            &mut model,
        )
        .unwrap();
    assert_eq!(model.merges, vec![((2, 1), 6), ((0, 6), 7)]);
    assert_eq!(
        symbols(&model),
        vec!["a", "e", "r", "x", "y", "z", "re", "are"]
    );
}

#[test]
fn listed_merges_come_first_and_discovery_goes_on_behind_them() {
    let words = words_of(&[("are", 4), ("red", 3), ("is", 2)]);
    let trainer = BpeTrainer::builder().min_frequency(2).build();
    let mut model = BPE::new();
    let src = source(
        "#version: 0.2\nr e\n",
        "a 0\nd 1\ne 2\ni 3\nr 4\ns 5\n",
        "<pad> 7\n",
    );
    trainer.do_train_extend(&words, &src, &mut model).unwrap();
    // The listed merge, then the special token, then what discovery finds:
    // (a, re) with count 4, (re, d) with count 3, (i, s) with count 2.
    assert_eq!(
        symbols(&model),
        vec!["a", "d", "e", "i", "r", "s", "re", "<pad>", "are", "red", "is"]
    );
    assert_eq!(
        model.merges,
        vec![((4, 2), 6), ((0, 6), 8), ((6, 1), 9), ((3, 5), 10)]
    );
}

#[test]
fn configured_special_tokens_get_ids_in_both_ways_of_training() {
    let words = words_of(&[("ab", 2)]);
    let trainer = BpeTrainer::builder()
        .special_tokens(vec![
            AddedToken::from("<s>".to_string(), true),
            AddedToken::from("</s>".to_string(), true),
            AddedToken::from("<s>".to_string(), true),
        ])
        .build();
    let mut model = BPE::new();
    let returned = trainer.do_train_original(&words, &mut model).unwrap();
    assert_eq!(symbols(&model), vec!["<s>", "</s>", "a", "b", "ab"]);
    assert_eq!(returned.len(), 3);
    assert_eq!(returned[1].content, "</s>");
    assert!(returned[1].special);

    let mut model = BPE::new();
    trainer
        .do_train_extend(&words, &source("", "a 0\nb 1", "<s> 2"), &mut model)
        .unwrap();
    assert_eq!(symbols(&model), vec!["a", "b", "<s>", "</s>", "ab"]);
}

#[test]
fn a_stale_candidate_is_priced_anew_before_it_is_judged() {
    // Merging (x, y) takes every occurrence of (y, z) away.
    let words = words_of(&[("xyz", 5), ("xy", 1)]);
    let trainer = BpeTrainer::builder().build();
    let rules = trainer.rules(NO_FILTERS);
    let mut run = start(&trainer, &words);
    assert_eq!(run.queue.len(), 2);
    assert_eq!(run.queue.waiting(), vec![((0, 1), 6), ((1, 2), 5)]);

    assert!(run.step(&rules));
    assert_eq!(run.merges, vec![((0, 1), 3)]);
    assert_eq!(run.corpus.pair_counts.get((1, 2)), 0);
    assert_eq!(run.corpus.pair_counts.get((3, 2)), 5);
    // The runner-up still waits with the count it had, before the new candidate.
    assert_eq!(run.queue.waiting(), vec![((1, 2), 5), ((3, 2), 5)]);

    // It is taken first, since it has the smaller pair, and priced anew.
    assert!(run.step(&rules));
    assert_eq!(run.merges.len(), 1);
    assert_eq!(run.queue.waiting(), vec![((1, 2), 0), ((3, 2), 5)]);

    // Then the new candidate is merged, and discovery stops at the stale one.
    assert!(run.step(&rules));
    assert_eq!(run.merges, vec![((0, 1), 3), ((3, 2), 4)]);
    assert_eq!(run.queue.waiting(), vec![((1, 2), 0)]);
    assert!(!run.step(&rules));
    assert_eq!(run.queue.len(), 1);
    assert_eq!(run.corpus.words[0].get_chars(), vec![4]);
    assert_eq!(run.corpus.words[1].get_chars(), vec![3]);
}

#[test]
fn discovery_stops_at_the_vocabulary_size_and_at_the_minimum_frequency() {
    let words = words_of(&[("abcd", 5), ("ab", 3), ("cd", 1)]);
    let sized = BpeTrainer::builder().vocab_size(5).build();
    let mut model = BPE::new();
    sized.do_train_original(&words, &mut model).unwrap();
    assert_eq!(symbols(&model), vec!["a", "b", "c", "d", "ab"]);

    let floor = BpeTrainer::new(6, 30000);
    let mut model = BPE::new();
    floor.do_train_original(&words, &mut model).unwrap();
    // (a, b) has count 8 and (c, d) count 6; (ab, cd) has count 5.
    assert_eq!(symbols(&model), vec!["a", "b", "c", "d", "ab", "cd"]);

    let tiny = BpeTrainer::builder().vocab_size(0).build();
    let mut model = BPE::new();
    tiny.do_train_original(&words, &mut model).unwrap();
    assert_eq!(symbols(&model), vec!["a", "b", "c", "d"]);
    assert!(model.merges.is_empty());
}

#[test]
fn ties_go_to_the_smaller_pair() {
    let words = words_of(&[("cd", 2), ("ab", 2), ("bc", 2)]);
    let trainer = BpeTrainer::builder().build();
    let mut model = BPE::new();
    trainer.do_train_original(&words, &mut model).unwrap();
    let pairs: Vec<Pair> = model.merges.iter().map(|m| m.0).collect();
    assert_eq!(pairs, vec![(0, 1), (1, 2), (2, 3)]);
}

#[test]
fn a_missing_symbol_of_a_listed_merge_is_a_fault() {
    let words = words_of(&[("ab", 2)]);
    let trainer = BpeTrainer::builder().build();
    let mut model = BPE::new();
    assert_eq!(
        trainer
            .do_train_extend(&words, &source("h\na b\nq b", "a 0\nb 1", ""), &mut model)
            .err(),
        Some(TrainError::MissingLeft { rank: 1 })
    );
    assert_eq!(
        trainer
            .do_train_extend(&words, &source("h\na q", "a 0\nb 1", ""), &mut model)
            .err(),
        Some(TrainError::MissingRight { rank: 0 })
    );
    assert_eq!(
        trainer
            .do_train_extend(&words, &source("h\nq r", "a 0\nb 1", ""), &mut model)
            .err(),
        Some(TrainError::MissingLeft { rank: 0 })
    );
    // The model is left as it was.
    assert_eq!(model.get_vocab().len(), 0);
}

#[test]
fn faulty_listings_are_faults_of_the_training() {
    let words = words_of(&[("ab", 2)]);
    let trainer = BpeTrainer::builder().build();
    let mut model = BPE::new();
    let run = |m: &str, a: &str, s: &str, model: &mut BPE| {
        trainer.do_train_extend(&words, &source(m, a, s), model).err()
    };
    assert_eq!(
        run("h\nab", "a 0\nb 1", "", &mut model),
        Some(TrainError::MalformedMerge { line: 1 })
    );
    assert_eq!(
        run("h", "a 0\nb", "", &mut model),
        Some(TrainError::MalformedEntry { line: 1 })
    );
    assert_eq!(
        run("h", "a 0\nb 5", "", &mut model),
        Some(TrainError::IdOutOfSequence { line: 1 })
    );
    assert_eq!(
        run("h", "a 0\na 1", "", &mut model),
        Some(TrainError::DuplicateSymbol { line: 1 })
    );
    // The special tokens are listed behind the replayed merges: a, b, ab.
    assert_eq!(
        run("h\na b", "a 0\nb 1", "<s> 2", &mut model),
        Some(TrainError::IdOutOfSequence { line: 0 })
    );
    assert_eq!(
        run("h\na b", "a 0\nb 1", "ab 3", &mut model),
        Some(TrainError::DuplicateSymbol { line: 0 })
    );
    assert_eq!(run("h\na b", "a 0\nb 1", "<s> 3", &mut model), None);
}

#[test]
fn a_corpus_that_outweighs_the_counts_is_a_fault() {
    let trainer = BpeTrainer::builder().build();
    let mut model = BPE::new();
    assert_eq!(MAX_WEIGHT, (i64::MAX / 5) as u64);
    assert_eq!(
        trainer
            .do_train(&words_of(&[("a", u64::MAX)]), &None, &mut model)
            .err(),
        Some(TrainError::CorpusTooLarge)
    );
    assert_eq!(
        trainer
            .do_train(&words_of(&[("ab", MAX_WEIGHT / 2 + 1)]), &None, &mut model)
            .err(),
        Some(TrainError::CorpusTooLarge)
    );
    assert_eq!(
        trainer
            .do_train(
                &words_of(&[("ab", (MAX_WEIGHT - 1) / 2), ("c", 1)]),
                &Some(source("", "a 0\nb 1\nc 2", "")),
                &mut model
            )
            .err(),
        None
    );
    assert_eq!(symbols(&model), vec!["a", "b", "c", "ab"]);
    let mut model = BPE::new();
    assert_eq!(
        trainer
            .do_train(&words_of(&[("ab", (MAX_WEIGHT - 1) / 2), ("cd", 1)]), &None, &mut model)
            .err(),
        Some(TrainError::CorpusTooLarge)
    );
    // A word without characters weighs nothing, however often it occurs.
    assert_eq!(
        trainer
            .do_train(&words_of(&[("", u64::MAX), ("ab", 1)]), &None, &mut model)
            .err(),
        None
    );
}

#[test]
fn every_merge_names_its_parts_and_its_symbol_is_made_of_them() {
    let words = words_of(&[("roses", 3), ("are", 5), ("red", 4), ("reared", 2)]);
    let trainer = BpeTrainer::builder()
        .continuing_subword_prefix("##".to_string())
        .end_of_word_suffix("</w>".to_string())
        .build();
    let mut model = BPE::new();
    trainer.do_train_original(&words, &mut model).unwrap();
    let vocab = symbols(&model);
    assert_eq!(model.get_vocab().len(), model.vocab.len());
    assert!(!model.merges.is_empty());
    for (pair, id) in &model.merges {
        let left = &vocab[pair.0 as usize];
        let right = &vocab[pair.1 as usize];
        let right = right.strip_prefix("##").unwrap_or(right);
        assert_eq!(vocab[*id as usize], format!("{}{}", left, right));
    }
    assert!(vocab.contains(&"red</w>".to_string()));
    assert_eq!(model.continuing_subword_prefix, Some("##".to_string()));
    assert_eq!(model.end_of_word_suffix, Some("</w>".to_string()));
}

#[test]
fn the_list_of_merges_only_grows_at_its_end() {
    let words = words_of(&[("abcabc", 3), ("bcd", 2), ("abd", 1)]);
    let trainer = BpeTrainer::builder().build();
    let rules = trainer.rules(NO_FILTERS);
    let mut run = start(&trainer, &words);
    let mut seen: Vec<(Pair, u32)> = Vec::new();
    loop {
        let sizes = (run.vocab.len(), run.merges.len());
        let more = run.step(&rules);
        assert!(run.merges.len() == sizes.1 || run.merges.len() == sizes.1 + 1);
        assert!(run.vocab.len() >= sizes.0);
        assert_eq!(&run.merges[..seen.len()], &seen[..]);
        seen = run.merges.clone();
        if !more {
            break;
        }
    }
    assert!(seen.len() >= 3);
}

#[test]
fn replaying_the_merges_gives_the_words_that_training_ends_with() {
    let words = words_of(&[
        ("roses", 1),
        ("are", 2),
        ("red", 1),
        ("aaaa", 3),
        ("rereading", 2),
        ("", 4),
        ("e", 1),
    ]);
    let trainer = BpeTrainer::builder().max_token_length(Some(4)).build();
    let rules = trainer.rules(NO_FILTERS);
    let mut run = start(&trainer, &words);
    let mut replayed: Vec<Word> = run.corpus.words.iter().map(copy_of).collect();
    let symbols_before = run.vocab.len();
    run.run(&rules);
    assert!(run.merges.len() >= 4);
    // Every merge has made a new symbol.
    assert_eq!(run.vocab.len() - symbols_before, run.merges.len());
    for (pair, id) in &run.merges {
        for w in replayed.iter_mut() {
            w.merge(pair.0, pair.1, *id, 4);
        }
    }
    for (ours, theirs) in run.corpus.words.iter().zip(replayed.iter()) {
        assert_eq!(ours.get_chars(), theirs.get_chars());
    }
}

#[test]
fn no_learned_symbol_is_longer_than_allowed() {
    let words = words_of(&[("abababab", 5), ("cabcab", 4), ("短字符串短字符串", 3)]);
    for max in [2usize, 3, 5, 8] {
        let trainer = BpeTrainer::builder().max_token_length(Some(max)).build();
        let mut model = BPE::new();
        trainer.do_train_original(&words, &mut model).unwrap();
        let vocab = symbols(&model);
        assert!(!model.merges.is_empty());
        for (_, id) in &model.merges {
            assert!(vocab[*id as usize].chars().count() <= max);
        }
        // A symbol of exactly the allowed length is learned where one arises.
        assert_eq!(vocab.contains(&"abab".to_string()), max >= 4);
        assert_eq!(vocab.contains(&"abababab".to_string()), max >= 8);
    }
    // Two characters are merged whatever the limit.
    let trainer = BpeTrainer::builder().max_token_length(Some(1)).build();
    let mut model = BPE::new();
    trainer.do_train_original(&words, &mut model).unwrap();
    let longest = symbols(&model).iter().map(|s| s.chars().count()).max();
    assert_eq!(longest, Some(2));
}

#[test]
fn the_model_is_rebuilt_by_each_training() {
    let trainer = BpeTrainer::builder().build();
    let mut model = BPE::new();
    trainer.do_train_original(&words_of(&[("ab", 2)]), &mut model).unwrap();
    trainer.do_train_original(&words_of(&[("xy", 2)]), &mut model).unwrap();
    assert_eq!(symbols(&model), vec!["x", "y", "xy"]);
    assert_eq!(model.vocab.get(&chars_of("xy")), Some(2));
    assert_eq!(model.vocab.get(&chars_of("ab")), None);
}

#[test]
fn a_listed_merge_without_a_candidate_leaves_the_words_as_they_are() {
    // The pair (a, b) stands in a word that never occurs, so it has no
    // count and no candidate; (x, y) has both.
    let words = words_of(&[("ab", 0), ("xy", 2)]);
    let trainer = BpeTrainer::builder().build();
    let rules = trainer.rules(NO_FILTERS);
    let mut vocab = Vocab::new();
    load_symbols(&mut vocab, &chars_of("a 0\nb 1\nx 2\ny 3")).unwrap();
    let (encoded, freqs) = trainer.tokenize_words(&words, &mut vocab).unwrap();
    let mut ext = trainer.start_replay(vocab, encoded, freqs).unwrap();
    assert_eq!(ext.table.find((0, 1)), None);
    assert_eq!(ext.table.find((2, 3)), Some(0));
    let list = vec![(chars_of("a"), chars_of("b")), (chars_of("x"), chars_of("y"))];
    assert_eq!(ext.replay(&list, &rules), Ok(()));
    assert_eq!(ext.merges, vec![((0, 1), 4), ((2, 3), 5)]);
    assert_eq!(ext.vocab.words(), vec!["a", "b", "x", "y", "ab", "xy"]);
    assert_eq!(ext.corpus.words[0].get_chars(), vec![0, 1]);
    assert_eq!(ext.corpus.words[1].get_chars(), vec![5]);
    assert_eq!(ext.table.find((2, 3)), None);
    assert_eq!(
        ext.replay_one(&chars_of("q"), &chars_of("a"), 7, &rules),
        Err(TrainError::MissingLeft { rank: 7 })
    );
    assert_eq!(ext.merges.len(), 2);
}

#[test]
fn training_on_nothing_gives_an_empty_model() {
    let trainer = BpeTrainer::builder().build();
    let mut model = BPE::new();
    assert_eq!(trainer.do_train_original(&vec![], &mut model).map(|t| t.len()), Ok(0));
    assert_eq!(model.vocab.len(), 0);
    assert!(model.merges.is_empty());
    assert_eq!(model.continuing_subword_prefix, None);

    // Words of one character have no pair to merge.
    trainer
        .do_train_original(&words_of(&[("b", 9), ("a", 1), ("", 3)]), &mut model)
        .unwrap();
    assert_eq!(symbols(&model), vec!["a", "b"]);
    assert!(model.merges.is_empty());

    let mut model = BPE::new();
    trainer
        .do_train_extend(&vec![], &source("", "", ""), &mut model)
        .unwrap();
    assert_eq!(model.vocab.len(), 0);
}

#[test]
fn a_limited_alphabet_leaves_its_characters_out_of_the_words() {
    // z is the lightest character and is dropped; "az" and "za" become "a".
    let words = words_of(&[("ab", 5), ("az", 1), ("zab", 1)]);
    let trainer = BpeTrainer::builder().limit_alphabet(2).build();
    let mut model = BPE::new();
    trainer.do_train_original(&words, &mut model).unwrap();
    assert_eq!(symbols(&model), vec!["a", "b", "ab"]);
    assert_eq!(model.merges, vec![((0, 1), 2)]);
}

#[test]
fn markers_take_part_in_the_merged_symbols() {
    let words = words_of(&[("abab", 3)]);
    let trainer = BpeTrainer::builder()
        .continuing_subword_prefix("##".to_string())
        .end_of_word_suffix("</w>".to_string())
        .build();
    let mut model = BPE::new();
    trainer.do_train_original(&words, &mut model).unwrap();
    // a, ##b, ##a and ##b</w> are the symbols of the word; the pairs are
    // merged in the order of their counts and, where these are equal, of
    // their ids. The right symbol of a merge loses its marker.
    assert_eq!(
        symbols(&model),
        vec!["a", "b", "##b", "##a", "##b</w>", "ab", "##ab</w>", "abab</w>"]
    );
    assert_eq!(
        model.merges,
        vec![((0, 2), 5), ((3, 4), 6), ((5, 6), 7)]
    );
}

#[test]
fn a_run_starts_only_from_words_that_fit_the_vocabulary() {
    let trainer = BpeTrainer::builder().build();
    let word = |ids: &[u32]| {
        let mut w = Word::new();
        for id in ids {
            w.add(*id, 1);
        }
        w
    };
    let vocab = || {
        let mut v = Vocab::new();
        v.intern(chars_of("a"));
        v.intern(chars_of("b"));
        v
    };
    assert!(trainer
        .start_discovery(vocab(), vec![word(&[0, 1])], vec![3])
        .is_some());
    // A word without a frequency.
    assert!(trainer
        .start_discovery(vocab(), vec![word(&[0, 1])], vec![])
        .is_none());
    // A token id without a symbol.
    assert!(trainer
        .start_discovery(vocab(), vec![word(&[0, 2])], vec![3])
        .is_none());
    // More symbols than the counts can keep track of.
    assert!(trainer
        .start_discovery(vocab(), vec![word(&[0, 1])], vec![MAX_WEIGHT / 2 + 1])
        .is_none());
    assert!(trainer
        .start_replay(vocab(), vec![word(&[0, 1])], vec![MAX_WEIGHT / 2])
        .is_some());
    // The weight is the number of symbols, each word taken as often as it
    // occurs: that of the first word is one less than the counts bear.
    assert!(trainer
        .start_replay(vocab(), vec![word(&[0, 1]), word(&[1])], vec![MAX_WEIGHT / 2, 1])
        .is_some());
    assert!(trainer
        .start_replay(vocab(), vec![word(&[0, 1]), word(&[1])], vec![MAX_WEIGHT / 2, 2])
        .is_none());
}

#[test]
fn a_larger_corpus_is_trained_as_its_merges_say() {
    // Words of five to twelve letters out of sixteen, drawn from a fixed
    // sequence of numbers.
    let mut state: u64 = 0x2545_f491_4f6c_dd1d;
    let mut next = move || {
        state ^= state << 13;
        state ^= state >> 7;
        state ^= state << 17;
        state
    };
    let mut words: Vec<(String, u64)> = Vec::new();
    for _ in 0..3000 {
        let len = 5 + (next() % 8) as usize;
        let word: String = (0..len)
            .map(|_| (b'a' + (next() % 16) as u8) as char)
            .collect();
        words.push((word, 1 + next() % 50));
    }
    let trainer = BpeTrainer::builder()
        .vocab_size(600)
        .min_frequency(2)
        .max_token_length(Some(6))
        .build();
    let rules = trainer.rules(NO_FILTERS);
    let mut run = start(&trainer, &words);
    let mut replayed: Vec<Word> = run.corpus.words.iter().map(copy_of).collect();
    assert_eq!(run.vocab.len(), 16);
    run.run(&rules);
    assert_eq!(run.vocab.len(), 600);
    assert_eq!(run.merges.len(), 584);
    let vocab = run.vocab.words();
    for (pair, id) in &run.merges {
        assert_eq!(
            vocab[*id as usize],
            format!("{}{}", vocab[pair.0 as usize], vocab[pair.1 as usize])
        );
        assert!(vocab[*id as usize].len() <= 6);
        for w in replayed.iter_mut() {
            w.merge(pair.0, pair.1, *id, 6);
        }
    }
    for (ours, theirs) in run.corpus.words.iter().zip(replayed.iter()) {
        assert_eq!(ours.get_chars(), theirs.get_chars());
    }
    // The same words give the same model.
    let mut first = BPE::new();
    let mut second = BPE::new();
    trainer.do_train_original(&words, &mut first).unwrap();
    trainer.do_train_original(&words, &mut second).unwrap();
    assert_eq!(first.merges, run.merges);
    assert_eq!(first.merges, second.merges);
    assert_eq!(first.get_vocab(), second.get_vocab());
}

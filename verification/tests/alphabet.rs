use bpe_trainer::alphabet::{cull, count_kept, tally};
use bpe_trainer::rules::{count_groups, join, rejects, starts_with, MergeFilters};
use bpe_trainer::text::chars_of;
use bpe_trainer::trainer::{AddedToken, BpeTrainer};
use bpe_trainer::vocab::Vocab;

fn corpus_of(words: &[(&str, u64)]) -> Vec<(String, u64)> {
    words.iter().map(|(w, c)| (w.to_string(), *c)).collect()
}

#[test]
fn alphabet_is_every_character_in_ascending_order() {
    let trainer = BpeTrainer::builder().build();
    let kept = trainer.select_alphabet(&corpus_of(&[("cab", 1), ("短a", 2)]));
    assert_eq!(kept, vec!['a', 'b', 'c', '短']);
    assert_eq!(trainer.select_alphabet(&corpus_of(&[])), Vec::<char>::new());
}

#[test]
fn alphabet_limit_drops_the_lightest_characters() {
    // Weights: a = 5, b = 1, c = 3. The entries stand in the order of the
    // code points, which is not the order of the weights.
    let words = corpus_of(&[("aaaaa", 1), ("b", 1), ("c", 3)]);
    let trainer = BpeTrainer::builder().limit_alphabet(2).build();
    assert_eq!(trainer.select_alphabet(&words), vec!['a', 'c']);
    let trainer = BpeTrainer::builder().limit_alphabet(1).build();
    assert_eq!(trainer.select_alphabet(&words), vec!['a']);
    let trainer = BpeTrainer::builder().limit_alphabet(0).build();
    assert_eq!(trainer.select_alphabet(&words), Vec::<char>::new());
    let trainer = BpeTrainer::builder().limit_alphabet(3).build();
    assert_eq!(trainer.select_alphabet(&words), vec!['a', 'b', 'c']);
    let trainer = BpeTrainer::builder().limit_alphabet(7).build();
    assert_eq!(trainer.select_alphabet(&words), vec!['a', 'b', 'c']);
}

#[test]
fn alphabet_weighs_a_character_by_the_frequency_of_its_words() {
    // x stands twice in a word seen three times, y once in a word seen five times.
    let words = corpus_of(&[("xx", 3), ("y", 5)]);
    let t = tally(&words, &vec![]);
    assert_eq!(t.weights['x' as usize], 6);
    assert_eq!(t.weights['y' as usize], 5);
    assert_eq!(t.weights['z' as usize], 0);
    assert_eq!(t.slots['x' as usize], Some('x'));
    assert_eq!(t.slots['z' as usize], None);
    assert_eq!(count_kept(&t.slots), 2);
    let trainer = BpeTrainer::builder().limit_alphabet(1).build();
    assert_eq!(trainer.select_alphabet(&words), vec!['x']);
}

#[test]
fn alphabet_of_equal_weights_drops_the_lower_code_points() {
    let words = corpus_of(&[("dcba", 2)]);
    let trainer = BpeTrainer::builder().limit_alphabet(2).build();
    assert_eq!(trainer.select_alphabet(&words), vec!['c', 'd']);
}

#[test]
fn initial_alphabet_outweighs_every_seen_character() {
    let words = corpus_of(&[("aab", 9)]);
    let trainer = BpeTrainer::builder()
        .initial_alphabet(vec!['z', 'q', 'z'])
        .limit_alphabet(2)
        .build();
    assert_eq!(trainer.select_alphabet(&words), vec!['q', 'z']);
    let t = tally(&words, &vec!['z']);
    assert_eq!(t.weights['z' as usize], u64::MAX);
    assert_eq!(t.weights['a' as usize], 18);
    // Without a limit the characters to include come on top of the seen ones.
    let trainer = BpeTrainer::builder().initial_alphabet(vec!['z']).build();
    assert_eq!(trainer.select_alphabet(&words), vec!['a', 'b', 'z']);
    // A limit below their number drops some of them too.
    let trainer = BpeTrainer::builder()
        .initial_alphabet(vec!['z', 'q'])
        .limit_alphabet(1)
        .build();
    assert_eq!(trainer.select_alphabet(&words), vec!['z']);
}

#[test]
fn cull_empties_the_lightest_slots() {
    let words = corpus_of(&[("aaaaa", 1), ("b", 1), ("c", 3)]);
    let mut t = tally(&words, &vec![]);
    cull(&mut t, 2);
    assert_eq!(count_kept(&t.slots), 1);
    assert_eq!(t.slots['a' as usize], Some('a'));
    assert_eq!(t.slots['b' as usize], None);
    assert_eq!(t.slots['c' as usize], None);
}

#[test]
fn compute_alphabet_keeps_the_ids_of_symbols_that_are_there() {
    let trainer = BpeTrainer::builder()
        .special_tokens(vec![
            AddedToken::from("<s>".to_string(), true),
            AddedToken::from("b".to_string(), true),
        ])
        .build();
    let mut vocab = Vocab::new();
    assert_eq!(trainer.add_special_tokens(&mut vocab), Ok(()));
    assert_eq!(
        trainer.compute_alphabet(&corpus_of(&[("cab", 1)]), &mut vocab),
        Ok(())
    );
    assert_eq!(vocab.words(), vec!["<s>", "b", "a", "c"]);
}

#[test]
fn joining_strips_the_marker_from_the_right_symbol() {
    let prefix = Some(chars_of("##"));
    assert_eq!(join(&chars_of("re"), &chars_of("##d"), &prefix), chars_of("red"));
    assert_eq!(join(&chars_of("##r"), &chars_of("##e"), &prefix), chars_of("##re"));
    assert_eq!(join(&chars_of("r"), &chars_of("#e"), &prefix), chars_of("r#e"));
    assert_eq!(join(&chars_of("r"), &chars_of("e"), &None), chars_of("re"));
    assert_eq!(join(&chars_of("r"), &chars_of("##"), &prefix), chars_of("r"));
    assert!(starts_with(&chars_of("##e"), &chars_of("##")));
    assert!(starts_with(&chars_of("e"), &chars_of("")));
    assert!(!starts_with(&chars_of("#"), &chars_of("##")));
}

#[test]
fn groups_are_counted_between_sentinels() {
    assert_eq!(count_groups(&chars_of("")), 0);
    assert_eq!(count_groups(&chars_of("abc")), 1);
    assert_eq!(count_groups(&chars_of("ĠaĠĠbcĠ")), 2);
    assert_eq!(count_groups(&chars_of("ĠĠ")), 0);
    assert_eq!(count_groups(&chars_of("aĠb")), 2);
}

#[test]
fn filters_pass_over_long_runs_of_words_and_digit_boundaries() {
    let all = MergeFilters { sentinel_cap: true, digit_guard: true };
    let none = MergeFilters { sentinel_cap: false, digit_guard: false };
    let check = |f: MergeFilters, left: &str, right: &str| {
        let token = chars_of(&format!("{}{}", left, right));
        rejects(f, &chars_of(left), &chars_of(right), 0, &token)
    };
    assert!(check(all, "a9", "b"));
    assert!(check(all, "a", "9b"));
    assert!(!check(all, "9a", "b9"));
    assert!(!check(none, "a9", "9b"));
    let twenty: String = (0..20).map(|_| "Ġw").collect();
    assert!(!check(all, &twenty, ""));
    assert!(check(all, &twenty, "Ġw"));
    assert!(!check(none, &twenty, "Ġw"));
    // The marker of the right symbol is not looked at.
    let right = chars_of("9x");
    assert!(!rejects(all, &chars_of("a"), &right, 1, &chars_of("ax")));
    assert!(rejects(all, &chars_of("a"), &right, 0, &chars_of("a9x")));
}

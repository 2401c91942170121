use bpe_trainer::text::{chars_of, string_of};
use bpe_trainer::vocab::Vocab;
use bpe_trainer::word::{Symbol, Word};

fn word_of(ids: &[u32]) -> Word {
    let mut w = Word::new();
    for id in ids {
        w.add(*id, 1);
    }
    w
}

#[test]
fn merge_rewrites_every_occurrence_and_reports_neighbours() {
    // a b c a b, with a = 0, b = 1, c = 2, merged into 3.
    let mut w = word_of(&[0, 1, 2, 0, 1]);
    let changes = w.merge(0, 1, 3, usize::MAX);
    assert_eq!(w.get_chars(), vec![3, 2, 3]);
    assert_eq!(
        changes,
        vec![((1, 2), -1), ((3, 2), 1), ((2, 0), -1), ((2, 3), 1)]
    );
    assert_eq!(w.symbol(0), Symbol { c: 3, len: 2 });
    assert_eq!(w.symbol(1), Symbol { c: 2, len: 1 });
}

#[test]
fn merge_takes_overlapping_occurrences_from_the_left() {
    let mut w = word_of(&[0, 0, 0, 0]);
    let changes = w.merge(0, 0, 5, usize::MAX);
    assert_eq!(w.get_chars(), vec![5, 5]);
    assert_eq!(
        changes,
        vec![((0, 0), -1), ((5, 0), 1), ((5, 0), -1), ((5, 5), 1)]
    );

    let mut odd = word_of(&[0, 0, 0]);
    let changes = odd.merge(0, 0, 5, usize::MAX);
    assert_eq!(odd.get_chars(), vec![5, 0]);
    assert_eq!(changes, vec![((0, 0), -1), ((5, 0), 1)]);
}

#[test]
fn merge_reports_no_gain_for_a_pair_that_would_be_too_long() {
    // x a b y: the merged symbol covers two characters, so with a limit of
    // two neither neighbour forms a pair that may be merged later.
    let mut w = word_of(&[7, 0, 1, 8]);
    let changes = w.merge(0, 1, 3, 2);
    assert_eq!(w.get_chars(), vec![7, 3, 8]);
    assert_eq!(changes, vec![((7, 0), -1), ((1, 8), -1)]);

    // With a limit of three both gains are reported: 1 + 2 <= 3.
    let mut w = word_of(&[7, 0, 1, 8]);
    let changes = w.merge(0, 1, 3, 3);
    assert_eq!(
        changes,
        vec![((7, 0), -1), ((7, 3), 1), ((1, 8), -1), ((3, 8), 1)]
    );
}

#[test]
fn merge_leaves_a_word_without_the_pair_untouched() {
    let mut w = word_of(&[1, 0, 2]);
    let changes = w.merge(0, 1, 3, usize::MAX);
    assert_eq!(w.get_chars(), vec![1, 0, 2]);
    assert!(changes.is_empty());
    assert_eq!(w.len(), 3);

    let mut empty = Word::new();
    assert!(empty.merge(0, 1, 3, usize::MAX).is_empty());
    assert_eq!(empty.len(), 0);
}

#[test]
fn merged_length_stops_at_the_largest_number() {
    let mut w = Word::new();
    w.add(0, usize::MAX);
    w.add(1, 5);
    w.merge(0, 1, 2, usize::MAX);
    assert_eq!(w.symbol(0), Symbol { c: 2, len: usize::MAX });
}

#[test]
fn strings_and_characters_convert_both_ways() {
    assert_eq!(chars_of("aĠ短"), vec!['a', '\u{120}', '短']);
    assert_eq!(chars_of(""), Vec::<char>::new());
    assert_eq!(string_of(&vec!['r', 'e', '短']), "re短".to_string());
    assert_eq!(string_of(&vec![]), String::new());
}

#[test]
fn vocabulary_gives_dense_ids_in_order_of_arrival() {
    let mut v = Vocab::new();
    assert_eq!(v.len(), 0);
    assert_eq!(v.intern(chars_of("b")), Some(0));
    assert_eq!(v.intern(chars_of("ab")), Some(1));
    assert_eq!(v.intern(chars_of("b")), Some(0));
    assert_eq!(v.len(), 2);
    assert_eq!(v.get(&chars_of("ab")), Some(1));
    assert_eq!(v.get(&chars_of("a")), None);
    assert_eq!(v.word(1), &chars_of("ab"));
    assert_eq!(v.words(), vec!["b".to_string(), "ab".to_string()]);
}

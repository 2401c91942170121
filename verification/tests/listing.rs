use bpe_trainer::listing::{
    load_merges, load_symbols, parse_entry, parse_id, parse_merge, split_lines,
};
use bpe_trainer::text::chars_of;
use bpe_trainer::trainer::TrainError;
use bpe_trainer::vocab::Vocab;

fn lines(text: &str) -> Vec<String> {
    split_lines(&chars_of(text))
        .iter()
        .map(|l| l.iter().collect())
        .collect()
}

#[test]
fn lines_end_at_line_feeds() {
    assert_eq!(lines("a\nb"), vec!["a", "b"]);
    assert_eq!(lines("a\nb\n"), vec!["a", "b"]);
    assert_eq!(lines("a\r\nb\r\n"), vec!["a", "b"]);
    assert_eq!(lines("a\n\nb"), vec!["a", "", "b"]);
    assert_eq!(lines(""), Vec::<String>::new());
    assert_eq!(lines("\n"), vec![""]);
    assert_eq!(lines("a\r"), vec!["a\r"]);
    assert_eq!(lines("\r\n"), vec![""]);
}

#[test]
fn ids_are_decimal_numbers_that_fit() {
    assert_eq!(parse_id(&chars_of("12")), Some(12));
    assert_eq!(parse_id(&chars_of("+7")), Some(7));
    assert_eq!(parse_id(&chars_of("007")), Some(7));
    assert_eq!(parse_id(&chars_of("0")), Some(0));
    assert_eq!(parse_id(&chars_of("4294967295")), Some(u32::MAX));
    assert_eq!(parse_id(&chars_of("4294967296")), None);
    assert_eq!(parse_id(&chars_of("99999999999999999999999")), None);
    assert_eq!(parse_id(&chars_of("")), None);
    assert_eq!(parse_id(&chars_of("+")), None);
    assert_eq!(parse_id(&chars_of("-1")), None);
    assert_eq!(parse_id(&chars_of("1a")), None);
    assert_eq!(parse_id(&chars_of(" 1")), None);
}

#[test]
fn entries_are_a_symbol_and_an_id() {
    assert_eq!(parse_entry(&chars_of("tok 5")), Some((chars_of("tok"), 5)));
    assert_eq!(parse_entry(&chars_of("tok 5 more")), Some((chars_of("tok"), 5)));
    assert_eq!(parse_entry(&chars_of(" 3")), Some((chars_of(""), 3)));
    assert_eq!(parse_entry(&chars_of("tok")), None);
    assert_eq!(parse_entry(&chars_of("tok ")), None);
    assert_eq!(parse_entry(&chars_of("a b 3")), None);
    assert_eq!(parse_entry(&chars_of("")), None);
}

#[test]
fn merges_are_two_symbols() {
    assert_eq!(
        parse_merge(&chars_of("a re")),
        Some((chars_of("a"), chars_of("re")))
    );
    assert_eq!(
        parse_merge(&chars_of("a  b")),
        Some((chars_of("a"), chars_of("")))
    );
    assert_eq!(
        parse_merge(&chars_of("a b c")),
        Some((chars_of("a"), chars_of("b")))
    );
    assert_eq!(parse_merge(&chars_of("ab")), None);
    assert_eq!(parse_merge(&chars_of("")), None);
}

#[test]
fn symbols_load_in_sequence() {
    let mut v = Vocab::new();
    assert_eq!(load_symbols(&mut v, &chars_of("a 0\nb 1\n<s> 2\n")), Ok(()));
    assert_eq!(v.words(), vec!["a", "b", "<s>"]);
    // A second listing goes on where the first one ended.
    assert_eq!(load_symbols(&mut v, &chars_of("c 3")), Ok(()));
    assert_eq!(v.len(), 4);
}

#[test]
fn a_faulty_symbol_listing_is_refused_at_its_first_fault() {
    let mut v = Vocab::new();
    assert_eq!(
        load_symbols(&mut v, &chars_of("a 0\nb\nc 2")),
        Err(TrainError::MalformedEntry { line: 1 })
    );
    assert_eq!(v.words(), vec!["a"]);

    let mut v = Vocab::new();
    assert_eq!(
        load_symbols(&mut v, &chars_of("a 0\nb x")),
        Err(TrainError::MalformedEntry { line: 1 })
    );

    let mut v = Vocab::new();
    assert_eq!(
        load_symbols(&mut v, &chars_of("a 0\nb 2")),
        Err(TrainError::IdOutOfSequence { line: 1 })
    );

    let mut v = Vocab::new();
    assert_eq!(
        load_symbols(&mut v, &chars_of("a 1")),
        Err(TrainError::IdOutOfSequence { line: 0 })
    );

    let mut v = Vocab::new();
    assert_eq!(
        load_symbols(&mut v, &chars_of("a 0\nb 1\na 2")),
        Err(TrainError::DuplicateSymbol { line: 2 })
    );
}

#[test]
fn merges_load_behind_the_header() {
    assert_eq!(
        load_merges(&chars_of("#version: 0.2\nr e\na re\n")),
        Ok(vec![
            (chars_of("r"), chars_of("e")),
            (chars_of("a"), chars_of("re"))
        ])
    );
    // The header is not looked at, whatever it holds.
    assert_eq!(
        load_merges(&chars_of("noheader\nx y")),
        Ok(vec![(chars_of("x"), chars_of("y"))])
    );
    assert_eq!(load_merges(&chars_of("")), Ok(vec![]));
    assert_eq!(load_merges(&chars_of("#version: 0.2")), Ok(vec![]));
    assert_eq!(
        load_merges(&chars_of("#version: 0.2\nr e\nbroken\nx y")),
        Err(TrainError::MalformedMerge { line: 2 })
    );
    assert_eq!(
        load_merges(&chars_of("#version: 0.2\n\nx y")),
        Err(TrainError::MalformedMerge { line: 1 })
    );
}

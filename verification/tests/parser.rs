use gin::error::InsultError;
use gin::parser::{
    field_separator, parse_line, parse_line_with, phrase_from_pieces, read_phrases,
    uses_embedded_data, InsultPhrase, EXPECTED_FIELDS_PER_LINE, FIELD_SEPARATOR,
};

fn phrase(a: &str, b: &str, c: &str) -> InsultPhrase {
    [a.to_string(), b.to_string(), c.to_string()]
}

fn invalid_format(result: Result<impl std::fmt::Debug, InsultError>) -> String {
    match result {
        Err(InsultError::InvalidFormat(msg)) => msg,
        other => panic!("expected InvalidFormat, got {:?}", other),
    }
}

#[test]
fn parse_line_reads_three_fields() {
    let parsed = parse_line("artless\tbeef-witted\tcanker-blossom", 1).unwrap();
    assert_eq!(parsed, phrase("artless", "beef-witted", "canker-blossom"));
}

#[test]
fn parse_line_takes_a_run_of_tabs_as_one_separator() {
    let parsed = parse_line("bawdy\t\t\tbat-fowling\t\tbaggage", 3).unwrap();
    assert_eq!(parsed, phrase("bawdy", "bat-fowling", "baggage"));
}

#[test]
fn parse_line_trims_the_line_and_each_field() {
    let parsed = parse_line("  \tcraven \t  clay-brained\t bladder \t \r", 2).unwrap();
    assert_eq!(parsed, phrase("craven", "clay-brained", "bladder"));
}

#[test]
fn parse_line_keeps_spaces_inside_a_field() {
    let parsed = parse_line("very rank\tfen sucked\tboar pig", 1).unwrap();
    assert_eq!(parsed, phrase("very rank", "fen sucked", "boar pig"));
}

#[test]
fn parse_line_refuses_a_field_of_white_space() {
    let msg = invalid_format(parse_line("surly\t \tlout", 1));
    assert_eq!(msg, "Line 1: Field 2 is empty");
    let msg = invalid_format(parse_line("a\t\u{a0}\u{2003}\tb", 31));
    assert_eq!(msg, "Line 31: Field 2 is empty");
}

#[test]
fn parse_line_counts_the_fields_before_it_looks_into_them() {
    let msg = invalid_format(parse_line("a\t \tb\tc", 2));
    assert_eq!(msg, "Line 2: Expected 3 fields, found 4");
    let msg = invalid_format(parse_line("a\t \t \tb", 2));
    assert_eq!(msg, "Line 2: Expected 3 fields, found 4");
}

#[test]
fn parse_line_trims_unicode_white_space() {
    let parsed = parse_line("\u{a0}vain\u{2003}\ttoad-spotted\t\u{3000}varlet\u{2028}", 1).unwrap();
    assert_eq!(parsed, phrase("vain", "toad-spotted", "varlet"));
}

#[test]
fn parse_line_keeps_a_zero_width_space() {
    let parsed = parse_line("\u{200b}vain\ttoad-spotted\tvarlet", 1).unwrap();
    assert_eq!(parsed, phrase("\u{200b}vain", "toad-spotted", "varlet"));
}

#[test]
fn parse_line_refuses_two_fields() {
    let msg = invalid_format(parse_line("artless\tbeef-witted", 5));
    assert_eq!(msg, "Line 5: Expected 3 fields, found 2");
}

#[test]
fn parse_line_refuses_four_fields() {
    let msg = invalid_format(parse_line("a\tb\tc\td", 12));
    assert_eq!(msg, "Line 12: Expected 3 fields, found 4");
}

#[test]
fn parse_line_refuses_a_line_without_tabs() {
    let msg = invalid_format(parse_line("artless beef-witted canker-blossom", 1));
    assert_eq!(msg, "Line 1: Expected 3 fields, found 1");
}

#[test]
fn parse_line_counts_one_empty_field_in_a_blank_line() {
    let msg = invalid_format(parse_line(" \t ", 7));
    assert_eq!(msg, "Line 7: Expected 3 fields, found 1");
}

#[test]
fn parse_line_writes_large_numbers_in_full() {
    let line = vec!["x"; 1234].join("\t");
    let msg = invalid_format(parse_line(&line, 1_000_000));
    assert_eq!(msg, "Line 1000000: Expected 3 fields, found 1234");
    let msg = invalid_format(parse_line("a\tb", 0));
    assert_eq!(msg, "Line 0: Expected 3 fields, found 2");
    let msg = invalid_format(parse_line("a\tb", usize::MAX));
    assert_eq!(msg, format!("Line {}: Expected 3 fields, found 2", usize::MAX));
}

#[test]
fn field_separator_is_a_run_of_tabs() {
    assert_eq!(FIELD_SEPARATOR, r"\t+");
    assert_eq!(EXPECTED_FIELDS_PER_LINE, 3);
    let separator = field_separator().unwrap();
    assert_eq!(separator.as_str(), r"\t+");
    let pieces: Vec<&str> = separator.split("\ta\t\tb c\t").collect();
    assert_eq!(pieces, vec!["", "a", "b c", ""]);
}

#[test]
fn parse_line_with_uses_the_given_separator() {
    let separator = field_separator().unwrap();
    let parsed = parse_line_with(&separator, "weedy\t\tonion-eyed\tminnow", 1).unwrap();
    assert_eq!(parsed, phrase("weedy", "onion-eyed", "minnow"));
    let msg = invalid_format(parse_line_with(&separator, "weedy\tminnow", 9));
    assert_eq!(msg, "Line 9: Expected 3 fields, found 2");
}

#[test]
fn phrase_from_pieces_trims_and_counts() {
    let parsed = phrase_from_pieces(&vec![" a ", "b\t", "\nc"], 1).unwrap();
    assert_eq!(parsed, phrase("a", "b", "c"));
    let msg = invalid_format(phrase_from_pieces(&vec![], 4));
    assert_eq!(msg, "Line 4: Expected 3 fields, found 0");
    let msg = invalid_format(phrase_from_pieces(&vec!["a", "b", "c", "d", "e"], 4));
    assert_eq!(msg, "Line 4: Expected 3 fields, found 5");
}

#[test]
fn phrase_from_pieces_names_the_first_empty_field() {
    let msg = invalid_format(phrase_from_pieces(&vec![" \t", "b", "c"], 4));
    assert_eq!(msg, "Line 4: Field 1 is empty");
    let msg = invalid_format(phrase_from_pieces(&vec!["a", "", ""], 5));
    assert_eq!(msg, "Line 5: Field 2 is empty");
    let msg = invalid_format(phrase_from_pieces(&vec!["a", "b", "\r\n"], 6));
    assert_eq!(msg, "Line 6: Field 3 is empty");
    let msg = invalid_format(phrase_from_pieces(&vec!["", "", ""], 7));
    assert_eq!(msg, "Line 7: Field 1 is empty");
}

#[test]
fn read_phrases_returns_one_phrase_per_line_in_order() {
    let text = "artless\tbase-court\tapple-john\n\
                bawdy\tbat-fowling\tbaggage\n\
                rank\tbeef-witted\tbarnacle\n";
    let phrases = read_phrases(text).unwrap();
    assert_eq!(
        phrases,
        vec![
            phrase("artless", "base-court", "apple-john"),
            phrase("bawdy", "bat-fowling", "baggage"),
            phrase("rank", "beef-witted", "barnacle"),
        ]
    );
}

#[test]
fn read_phrases_reads_a_single_line_without_line_ending() {
    let phrases = read_phrases("artless\tbeef-witted\tcanker-blossom").unwrap();
    assert_eq!(phrases, vec![phrase("artless", "beef-witted", "canker-blossom")]);
}

#[test]
fn read_phrases_passes_over_blank_lines() {
    let text = "\n  \t \nartless\tbase-court\tapple-john\n\r\n\nbawdy\tbat-fowling\tbaggage\n \n";
    let phrases = read_phrases(text).unwrap();
    assert_eq!(
        phrases,
        vec![
            phrase("artless", "base-court", "apple-john"),
            phrase("bawdy", "bat-fowling", "baggage"),
        ]
    );
}

#[test]
fn read_phrases_reads_lines_that_end_in_cr_lf() {
    let text = "artless\tbase-court\tapple-john\r\nbawdy\tbat-fowling\tbaggage\r\n";
    let phrases = read_phrases(text).unwrap();
    assert_eq!(
        phrases,
        vec![
            phrase("artless", "base-court", "apple-john"),
            phrase("bawdy", "bat-fowling", "baggage"),
        ]
    );
}

#[test]
fn read_phrases_names_the_line_with_two_fields() {
    let text = "artless\tbase-court\tapple-john\nbawdy\tbaggage\nrank\tbeef-witted\tbarnacle\n";
    let msg = invalid_format(read_phrases(text));
    assert_eq!(msg, "Line 2: Expected 3 fields, found 2");
}

#[test]
fn read_phrases_names_the_line_with_four_fields() {
    let text = "a\tb\tc\nd\te\tf\ng\th\ti\tj\n";
    let msg = invalid_format(read_phrases(text));
    assert_eq!(msg, "Line 3: Expected 3 fields, found 4");
}

#[test]
fn read_phrases_counts_blank_lines_in_line_numbers() {
    let text = "\n\na\tb\tc\n\n   \nd\te\n";
    let msg = invalid_format(read_phrases(text));
    assert_eq!(msg, "Line 6: Expected 3 fields, found 2");
}

#[test]
fn read_phrases_stops_at_the_first_malformed_line() {
    let text = "a\tb\tc\nd\ne\tf\tg\th\n";
    let msg = invalid_format(read_phrases(text));
    assert_eq!(msg, "Line 2: Expected 3 fields, found 1");
}

#[test]
fn read_phrases_refuses_a_text_of_blank_lines() {
    let msg = invalid_format(read_phrases("\n   \n\t\t\n \r\n"));
    assert_eq!(msg, "No valid phrases found");
}

#[test]
fn read_phrases_refuses_an_empty_text() {
    let msg = invalid_format(read_phrases(""));
    assert_eq!(msg, "No valid phrases found");
}

#[test]
fn read_phrases_does_not_split_at_a_lone_carriage_return() {
    let msg = invalid_format(read_phrases("a\tb\tc\rd\te\tf\n"));
    assert_eq!(msg, "Line 1: Expected 3 fields, found 5");
}

#[test]
fn uses_embedded_data_compares_the_whole_path() {
    assert!(uses_embedded_data("data/phrases", "data/phrases"));
    assert!(uses_embedded_data("", ""));
    assert!(!uses_embedded_data("data/phrases.txt", "data/phrases"));
    assert!(!uses_embedded_data("data/phrase", "data/phrases"));
    assert!(!uses_embedded_data("data/phrasez", "data/phrases"));
    assert!(!uses_embedded_data("Data/phrases", "data/phrases"));
    assert!(uses_embedded_data("données/phrases", "données/phrases"));
    assert!(!uses_embedded_data("donnees/phrases", "données/phrases"));
}

#[test]
fn written_phrases_are_read_back() {
    let phrases = vec![
        phrase("artless", "base-court", "apple-john"),
        phrase("very rank", "fen sucked", "boar pig"),
        phrase("x", "y", "z"),
    ];
    let lines: Vec<String> =
        phrases.iter().map(|p| format!("{}\t{}\t{}", p[0], p[1], p[2])).collect();
    let text = lines.join("\n");
    assert_eq!(read_phrases(&text).unwrap(), phrases);
    assert_eq!(read_phrases(&format!("{}\n", text)).unwrap(), phrases);
}

#[test]
fn blank_lines_change_the_line_number_at_most() {
    let plain = "a\tb\tc\nd\te\tf\n";
    let spaced = "\n \t \na\tb\tc\n\n\r\nd\te\tf\n   \n";
    assert_eq!(read_phrases(plain).unwrap(), read_phrases(spaced).unwrap());

    let plain = "a\tb\tc\nd\te\n";
    let spaced = "\n\na\tb\tc\n \nd\te\n\n";
    assert_eq!(invalid_format(read_phrases(plain)), "Line 2: Expected 3 fields, found 2");
    assert_eq!(invalid_format(read_phrases(spaced)), "Line 5: Expected 3 fields, found 2");

    let plain = "a\t \tc";
    let spaced = "\t\n\na\t \tc";
    assert_eq!(invalid_format(read_phrases(plain)), "Line 1: Field 2 is empty");
    assert_eq!(invalid_format(read_phrases(spaced)), "Line 3: Field 2 is empty");
}

#[test]
fn read_phrases_takes_runs_of_tabs_between_the_fields() {
    let text = " artless\t\t base-court \t\t\tapple-john \n\tbawdy \tbat-fowling\t\tbaggage\t";
    let phrases = read_phrases(text).unwrap();
    assert_eq!(
        phrases,
        vec![
            phrase("artless", "base-court", "apple-john"),
            phrase("bawdy", "bat-fowling", "baggage"),
        ]
    );
}

#[test]
fn read_phrases_gives_plain_fields() {
    let text = " a \t\t b b \t c \r\n\t\td\t \u{a0}x \te\t\n";
    let phrases = read_phrases(text).unwrap();
    assert_eq!(phrases, vec![phrase("a", "b b", "c"), phrase("d", "x", "e")]);
    for p in &phrases {
        for field in p {
            assert!(!field.is_empty());
            assert!(!field.contains('\t'));
            assert!(!field.contains('\n'));
            assert_eq!(field.trim(), field);
        }
    }
}

#[test]
fn read_phrases_names_the_line_with_an_empty_field() {
    let text = "a\tb\tc\n\nd\t \te\nf\tg\n";
    let msg = invalid_format(read_phrases(text));
    assert_eq!(msg, "Line 3: Field 2 is empty");
}

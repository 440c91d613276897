use gin::generator::{
    all_insults, checked_combination_count, format_insult, insult_for, random_insults,
};
use gin::parser::{read_phrases, InsultPhrase, PhraseList};

fn phrase(a: &str, b: &str, c: &str) -> InsultPhrase {
    [a.to_string(), b.to_string(), c.to_string()]
}

fn three_phrases() -> PhraseList {
    vec![
        phrase("artless", "base-court", "apple-john"),
        phrase("bawdy", "bat-fowling", "baggage"),
        phrase("rank", "beef-witted", "barnacle"),
    ]
}

#[test]
fn format_insult_joins_the_words() {
    assert_eq!(
        format_insult("artless", "beef-witted", "canker-blossom"),
        "Thou artless beef-witted canker-blossom!"
    );
    assert_eq!(format_insult("", "", ""), "Thou   !");
}

#[test]
fn insult_for_takes_the_fields_in_order() {
    let text = insult_for(&phrase("puking", "knotty-pated", "malt-worm"));
    assert_eq!(text, "Thou puking knotty-pated malt-worm!");
}

#[test]
fn random_insults_gives_as_many_lines_as_asked() {
    let phrases = three_phrases();
    for count in [0u32, 1, 2, 7, 500] {
        assert_eq!(random_insults(&phrases, count).len(), count as usize);
    }
}

#[test]
fn random_insults_draws_every_line_from_one_phrase() {
    let phrases = three_phrases();
    let allowed: Vec<String> = phrases.iter().map(insult_for).collect();
    let lines = random_insults(&phrases, 200);
    assert_eq!(lines.len(), 200);
    for line in &lines {
        assert!(allowed.contains(line), "unexpected line {:?}", line);
    }
}

#[test]
fn random_insults_of_a_single_phrase_are_that_phrase() {
    let phrases = read_phrases("artless\tbeef-witted\tcanker-blossom").unwrap();
    let lines = random_insults(&phrases, 1);
    assert_eq!(lines, vec!["Thou artless beef-witted canker-blossom!"]);
    let lines = random_insults(&phrases, 5);
    assert_eq!(lines, vec!["Thou artless beef-witted canker-blossom!"; 5]);
}

#[test]
fn random_insults_of_no_phrases_are_none() {
    let phrases: PhraseList = Vec::new();
    assert!(random_insults(&phrases, 10).is_empty());
    assert!(random_insults(&phrases, 0).is_empty());
}

#[test]
fn all_insults_of_two_phrases_are_eight_in_order() {
    let phrases = vec![phrase("a1", "b1", "n1"), phrase("a2", "b2", "n2")];
    let insults = all_insults(&phrases);
    let got: Vec<(usize, &str)> = insults.iter().map(|i| (i.id, i.insult.as_str())).collect();
    assert_eq!(
        got,
        vec![
            (0, "Thou a1 b1 n1!"),
            (1, "Thou a1 b1 n2!"),
            (2, "Thou a1 b2 n1!"),
            (3, "Thou a1 b2 n2!"),
            (4, "Thou a2 b1 n1!"),
            (5, "Thou a2 b1 n2!"),
            (6, "Thou a2 b2 n1!"),
            (7, "Thou a2 b2 n2!"),
        ]
    );
}

#[test]
fn all_insults_follow_the_index_formula() {
    let phrases = three_phrases();
    let n = phrases.len();
    let insults = all_insults(&phrases);
    assert_eq!(insults.len(), 27);
    for (index, entry) in insults.iter().enumerate() {
        assert_eq!(entry.id, index);
        let expected = format_insult(
            &phrases[index / (n * n)][0],
            &phrases[(index / n) % n][1],
            &phrases[index % n][2],
        );
        assert_eq!(entry.insult, expected);
    }
    assert_eq!(insults[1 * 9 + 2 * 3 + 0].insult, "Thou bawdy beef-witted apple-john!");
}

#[test]
fn all_insults_of_one_phrase_is_that_insult() {
    let insults = all_insults(&vec![phrase("artless", "beef-witted", "canker-blossom")]);
    assert_eq!(insults.len(), 1);
    assert_eq!(insults[0].id, 0);
    assert_eq!(insults[0].insult, "Thou artless beef-witted canker-blossom!");
}

#[test]
fn all_insults_of_no_phrases_are_none() {
    let phrases: PhraseList = Vec::new();
    assert!(all_insults(&phrases).is_empty());
}

#[test]
fn checked_combination_count_is_the_cube() {
    assert_eq!(checked_combination_count(0), Some(0));
    assert_eq!(checked_combination_count(1), Some(1));
    assert_eq!(checked_combination_count(2), Some(8));
    assert_eq!(checked_combination_count(50), Some(125_000));
    assert_eq!(checked_combination_count(1625), Some(4_291_015_625));
}

#[test]
fn checked_combination_count_is_none_beyond_usize() {
    assert_eq!(checked_combination_count(usize::MAX), None);
    let root = (usize::MAX as f64).cbrt() as usize;
    assert_eq!(checked_combination_count(root + 2), None);
    assert!(checked_combination_count(root - 2).is_some());
}

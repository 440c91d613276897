//! Reading phrase text: one phrase per line, three tab-separated fields each.
//!
//! [`read_phrases`] takes the whole text, [`parse_line`] one line of it. What
//! they return is stated over [`read_outcome`] and [`line_fields`], and the
//! proof functions at the end of this file say what follows from that.

use crate::error::InsultError;
use crate::text::{
    decimal, is_blank, is_whitespace, leading, lemma_blank_trims_to_nothing, lemma_tab_fields,
    lemma_tab_fields_of_more_pieces, lemma_tab_fields_of_one_piece, lemma_text_lines,
    lemma_text_lines_of_more_lines, lemma_text_lines_of_one_line, lemma_trimmed,
    lemma_trimmed_of_three, lemma_trimmed_of_tight, lines_of, push_decimal, same_text, tab_fields,
    text_lines, trailing, trimmed, whitespace, without_cr,
};
use regex::Regex;
use vstd::prelude::*;
use vstd::string::*;

verus! {

/// One phrase: two adjectives and a noun, in that order.
pub type InsultPhrase = [String; 3];

/// The phrases of one source, in the order of its lines.
pub type PhraseList = Vec<InsultPhrase>;

/// The number of fields that every phrase line must hold.
pub const EXPECTED_FIELDS_PER_LINE: usize = 3;

/// The regular expression that separates the fields of a line: one or more tabs.
pub const FIELD_SEPARATOR: &'static str = "\\t+";

// ---------------------------------------------------------------------------
// The model
// ---------------------------------------------------------------------------

/// The pattern text of [`FIELD_SEPARATOR`]: a backslash, `t` and `+`.
pub open spec fn separator_pattern() -> Seq<char> {
    seq!['\\', 't', '+']
}

/// Whether `re` is the separator of fields: built from [`FIELD_SEPARATOR`],
/// and matching as that pattern reads.
pub open spec fn is_field_separator(re: Regex) -> bool {
    regex_source(re) == separator_pattern() && regex_reads_plainly(re)
}

/// The fields of one line: the line is trimmed, cut at its runs of tabs, and
/// each piece is trimmed again.
pub open spec fn line_fields(line: Seq<char>) -> Seq<Seq<char>> {
    tab_fields(trimmed(line)).map_values(|piece: Seq<char>| trimmed(piece))
}

/// The complaint about line `line_number`, which holds `found` fields.
pub open spec fn field_count_message(line_number: nat, found: nat) -> Seq<char> {
    "Line "@ + decimal(line_number) + ": Expected "@ + decimal(EXPECTED_FIELDS_PER_LINE as nat)
        + " fields, found "@ + decimal(found)
}

/// The complaint about a text without any phrase.
pub open spec fn no_phrases_message() -> Seq<char> {
    "No valid phrases found"@
}

/// The complaint about line `line_number`, whose field `field`, counted from
/// one, holds nothing.
pub open spec fn empty_field_message(line_number: nat, field: nat) -> Seq<char> {
    "Line "@ + decimal(line_number) + ": Field "@ + decimal(field) + " is empty"@
}

/// Whether `fields` make a phrase: there are three of them, and none is empty.
pub open spec fn are_phrase_fields(fields: Seq<Seq<char>>) -> bool {
    &&& fields.len() == EXPECTED_FIELDS_PER_LINE
    &&& forall|f: int| 0 <= f < fields.len() ==> (#[trigger] fields[f]).len() > 0
}

/// What is said against the fields of line `line_number` where they make no
/// phrase: their number if it is not three, else the first of them that is
/// empty.
pub open spec fn complaint(fields: Seq<Seq<char>>, line_number: nat) -> Seq<char> {
    if fields.len() != EXPECTED_FIELDS_PER_LINE {
        field_count_message(line_number, fields.len())
    } else if fields[0].len() == 0 {
        empty_field_message(line_number, 1)
    } else if fields[1].len() == 0 {
        empty_field_message(line_number, 2)
    } else {
        empty_field_message(line_number, 3)
    }
}

/// Whether a line is neither blank nor a phrase.
pub open spec fn is_malformed(line: Seq<char>) -> bool {
    !is_blank(line) && !are_phrase_fields(line_fields(line))
}

/// Whether line `i` is malformed and no line before it is.
pub open spec fn is_first_malformed(lines: Seq<Seq<char>>, i: int) -> bool {
    &&& 0 <= i < lines.len()
    &&& is_malformed(lines[i])
    &&& forall|j: int| 0 <= j < i ==> !is_malformed(#[trigger] lines[j])
}

/// Whether reading gets as far as parsing line `i`: the line is not blank and
/// no line before it is malformed.
pub open spec fn is_parsed_line(lines: Seq<Seq<char>>, i: int) -> bool {
    &&& 0 <= i < lines.len()
    &&& !is_blank(lines[i])
    &&& forall|j: int| 0 <= j < i ==> !is_malformed(#[trigger] lines[j])
}

/// The lines that are not blank, in order.
pub open spec fn filled_lines(lines: Seq<Seq<char>>) -> Seq<Seq<char>> {
    lines.filter(|line: Seq<char>| !is_blank(line))
}

/// The fields of every line that is not blank, in the order of the lines.
pub open spec fn phrases_of(lines: Seq<Seq<char>>) -> Seq<Seq<Seq<char>>> {
    filled_lines(lines).map_values(|line: Seq<char>| line_fields(line))
}

/// The first malformed line among `lines`, if there is one.
pub open spec fn first_malformed_line(lines: Seq<Seq<char>>) -> Option<Seq<char>> {
    if exists|i: int| is_first_malformed(lines, i) {
        Some(lines[choose|i: int| is_first_malformed(lines, i)])
    } else {
        None
    }
}

/// What reading `lines` comes to: the complaint about the first malformed
/// line, numbered from one; else the complaint that there is no phrase at all;
/// else the phrases.
pub open spec fn lines_outcome(lines: Seq<Seq<char>>) -> Result<Seq<Seq<Seq<char>>>, Seq<char>> {
    if exists|i: int| is_first_malformed(lines, i) {
        let i = choose|i: int| is_first_malformed(lines, i);
        Err(complaint(line_fields(lines[i]), (i + 1) as nat))
    } else if phrases_of(lines).len() == 0 {
        Err(no_phrases_message())
    } else {
        Ok(phrases_of(lines))
    }
}

/// What reading `text` comes to, see [`lines_outcome`].
pub open spec fn read_outcome(text: Seq<char>) -> Result<Seq<Seq<Seq<char>>>, Seq<char>> {
    lines_outcome(text_lines(text))
}

/// Whether `phrase` holds the fields of one of `lines` that is not blank.
pub open spec fn is_phrase_of(phrase: Seq<Seq<char>>, lines: Seq<Seq<char>>) -> bool {
    exists|j: int|
        0 <= j < lines.len() && !is_blank(#[trigger] lines[j]) && phrase == line_fields(lines[j])
}

/// Whether `field` can stand in a phrase line as it is: it is not empty,
/// neither starts nor ends with white space, and holds neither a tab nor a
/// line feed.
pub open spec fn is_plain_field(field: Seq<char>) -> bool {
    &&& field.len() > 0
    &&& !is_whitespace(field.first())
    &&& !is_whitespace(field.last())
    &&& forall|i: int| 0 <= i < field.len() ==> #[trigger] field[i] != '\t' && field[i] != '\n'
}

/// Whether `phrase` is made of three plain fields.
pub open spec fn is_plain_phrase(phrase: Seq<Seq<char>>) -> bool {
    &&& phrase.len() == EXPECTED_FIELDS_PER_LINE
    &&& is_plain_field(phrase[0])
    &&& is_plain_field(phrase[1])
    &&& is_plain_field(phrase[2])
}

/// What holds of every phrase list that was read: it is not empty, and each
/// of its phrases is made of three plain fields.
pub open spec fn is_phrase_list(phrases: Seq<Seq<Seq<char>>>) -> bool {
    &&& phrases.len() >= 1
    &&& forall|i: int| 0 <= i < phrases.len() ==> is_plain_phrase(#[trigger] phrases[i])
}

/// Whether `run` is one or more tabs and nothing else.
pub open spec fn is_tab_run(run: Seq<char>) -> bool {
    run.len() >= 1 && forall|i: int| 0 <= i < run.len() ==> #[trigger] run[i] == '\t'
}

/// Whether `field` can stand between tabs as a field: it holds no tab, and
/// something other than white space.
pub open spec fn is_raw_field(field: Seq<char>) -> bool {
    !is_blank(field) && forall|i: int| 0 <= i < field.len() ==> #[trigger] field[i] != '\t'
}

/// Whether `line` is the five `parts` put together: a field, a run of tabs,
/// a field, a run of tabs, a field.
pub open spec fn is_line_of_parts(line: Seq<char>, parts: Seq<Seq<char>>) -> bool {
    &&& parts.len() == 5
    &&& line == parts[0] + parts[1] + parts[2] + parts[3] + parts[4]
    &&& is_raw_field(parts[0])
    &&& is_tab_run(parts[1])
    &&& is_raw_field(parts[2])
    &&& is_tab_run(parts[3])
    &&& is_raw_field(parts[4])
}

/// The line that states `phrase`: its three fields with a tab between them.
pub open spec fn phrase_line(phrase: Seq<Seq<char>>) -> Seq<char> {
    phrase[0] + seq!['\t'] + phrase[1] + seq!['\t'] + phrase[2]
}

/// The text that states `phrases`: the line of each, with a line feed
/// between one line and the next.
pub open spec fn phrases_text(phrases: Seq<Seq<Seq<char>>>) -> Seq<char>
    decreases phrases.len(),
{
    if phrases.len() == 0 {
        Seq::empty()
    } else if phrases.len() == 1 {
        phrase_line(phrases.first())
    } else {
        phrase_line(phrases.first()) + seq!['\n'] + phrases_text(phrases.drop_first())
    }
}

// ---------------------------------------------------------------------------
// The regex crate
// ---------------------------------------------------------------------------

/// `regex::Regex`, carried through opaquely.
#[verifier::external_type_specification]
#[verifier::external_body]
pub struct ExRegex(Regex);

/// `regex::Error`, carried through opaquely.
#[verifier::external_type_specification]
#[verifier::external_body]
pub struct ExRegexError(regex::Error);

/// The pattern text that a compiled regex was built from, which is what
/// `Regex::as_str` hands back.
pub uninterp spec fn regex_source(re: Regex) -> Seq<char>;

/// Whether a compiled regex matches as its pattern reads, that is, whether it
/// was built with the options that `Regex::new` builds with, and not by a
/// `RegexBuilder` that changes what the pattern means (as `swap_greed` or
/// `case_insensitive` do).
pub uninterp spec fn regex_reads_plainly(re: Regex) -> bool;

/// Whether `Regex::new` accepts `pattern`: its syntax is valid and what it
/// compiles to stays within the size limit that `Regex::new` sets.
pub uninterp spec fn regex_compiles(pattern: Seq<char>) -> bool;

/// `Regex::new` builds with the default options, and whether it succeeds
/// depends on the pattern alone. A regex that comes back keeps the pattern it
/// was given and matches as that pattern reads.
pub assume_specification[ Regex::new ](re: &str) -> (compiled: Result<Regex, regex::Error>)
    ensures
        compiled is Ok <==> regex_compiles(re@),
        compiled matches Ok(regex) ==> regex_source(regex) == re@ && regex_reads_plainly(regex),
;

/// Calls `Regex::split` and collects the pieces in order. For the pattern
/// `\t+`, read plainly, every match is a longest run of tabs, so the pieces
/// are the parts of `text` between such runs, with an empty piece beside a run
/// that starts or ends the text.
#[verifier::external_body]
fn split_on_tabs<'h>(separator: &Regex, text: &'h str) -> (pieces: Vec<&'h str>)
    requires
        is_field_separator(*separator),
    ensures
        pieces.deep_view() == tab_fields(text@),
{
    separator.split(text).collect()
}

// ---------------------------------------------------------------------------
// Parsing
// ---------------------------------------------------------------------------

/// Writes the complaint about a line with the wrong number of fields.
fn wrong_field_count(line_number: usize, found: usize) -> (e: InsultError)
    ensures
        e matches InsultError::InvalidFormat(msg) && msg@ == field_count_message(
            line_number as nat,
            found as nat,
        ),
{
    let mut msg = "Line ".to_owned();
    push_decimal(&mut msg, line_number);
    msg.append(": Expected ");
    push_decimal(&mut msg, EXPECTED_FIELDS_PER_LINE);
    msg.append(" fields, found ");
    push_decimal(&mut msg, found);
    InsultError::InvalidFormat(msg)
}

/// Writes the complaint about a line with an empty field.
fn empty_field(line_number: usize, field: usize) -> (e: InsultError)
    ensures
        e matches InsultError::InvalidFormat(msg) && msg@ == empty_field_message(
            line_number as nat,
            field as nat,
        ),
{
    let mut msg = "Line ".to_owned();
    push_decimal(&mut msg, line_number);
    msg.append(": Field ");
    push_decimal(&mut msg, field);
    msg.append(" is empty");
    InsultError::InvalidFormat(msg)
}

/// Builds a phrase from the pieces that one line was cut into. Each piece is
/// trimmed; there must be exactly three of them, and none may be empty after
/// trimming. Anything else is an `InvalidFormat` error that names
/// `line_number` and says what is wrong, as [`complaint`] has it.
pub fn phrase_from_pieces(pieces: &Vec<&str>, line_number: usize) -> (r: Result<
    InsultPhrase,
    InsultError,
>)
    ensures
        ({
            let fields = pieces.deep_view().map_values(|piece: Seq<char>| trimmed(piece));
            match r {
                Ok(phrase) => are_phrase_fields(fields) && phrase.deep_view() == fields,
                Err(InsultError::InvalidFormat(msg)) => !are_phrase_fields(fields) && msg@
                    == complaint(fields, line_number as nat),
                Err(_) => false,
            }
        }),
{
    if pieces.len() != EXPECTED_FIELDS_PER_LINE {
        return Err(wrong_field_count(line_number, pieces.len()));
    }
    let adjective1 = pieces[0].trim();
    let adjective2 = pieces[1].trim();
    let noun = pieces[2].trim();
    let ghost fields = pieces.deep_view().map_values(|piece: Seq<char>| trimmed(piece));
    assert(fields[0] == adjective1@ && fields[1] == adjective2@ && fields[2] == noun@);
    if adjective1.is_empty() {
        return Err(empty_field(line_number, 1));
    }
    if adjective2.is_empty() {
        return Err(empty_field(line_number, 2));
    }
    if noun.is_empty() {
        return Err(empty_field(line_number, 3));
    }
    let phrase = [adjective1.to_owned(), adjective2.to_owned(), noun.to_owned()];
    Ok(phrase)
}

/// Compiles [`FIELD_SEPARATOR`]. A `ParseError` with the compiler's words
/// comes back if, and only if, the pattern is refused.
pub fn field_separator() -> (r: Result<Regex, InsultError>)
    ensures
        r is Ok <==> regex_compiles(separator_pattern()),
        match r {
            Ok(separator) => is_field_separator(separator),
            Err(InsultError::ParseError(_)) => true,
            Err(_) => false,
        },
{
    proof {
        reveal_strlit("\\t+");
        assert(FIELD_SEPARATOR@ =~= separator_pattern());
    }
    match Regex::new(FIELD_SEPARATOR) {
        Ok(separator) => Ok(separator),
        Err(e) => Err(InsultError::ParseError(e.to_string())),
    }
}

/// Parses one line with a separator that is already compiled.
///
/// The line is trimmed and cut at every run of tabs, and each field is
/// trimmed. Three fields of which none is empty make a phrase; anything else
/// is an `InvalidFormat` error that names `line_number` and says what is
/// wrong, as [`complaint`] has it.
pub fn parse_line_with(separator: &Regex, line: &str, line_number: usize) -> (r: Result<
    InsultPhrase,
    InsultError,
>)
    requires
        is_field_separator(*separator),
    ensures
        match r {
            Ok(phrase) => are_phrase_fields(line_fields(line@)) && phrase.deep_view()
                == line_fields(line@),
            Err(InsultError::InvalidFormat(msg)) => !are_phrase_fields(line_fields(line@))
                && msg@ == complaint(line_fields(line@), line_number as nat),
            Err(_) => false,
        },
{
    let pieces = split_on_tabs(separator, line.trim());
    phrase_from_pieces(&pieces, line_number)
}

/// Parses one line of phrase text into its three fields.
///
/// The separator is compiled first; a `ParseError` comes back if, and only
/// if, that fails, whatever the line holds. After that the line is parsed as
/// [`parse_line_with`] says.
pub fn parse_line(line: &str, line_number: usize) -> (r: Result<InsultPhrase, InsultError>)
    ensures
        (r matches Err(InsultError::ParseError(_))) <==> !regex_compiles(separator_pattern()),
        match r {
            Ok(phrase) => are_phrase_fields(line_fields(line@)) && phrase.deep_view()
                == line_fields(line@),
            Err(InsultError::InvalidFormat(msg)) => !are_phrase_fields(line_fields(line@))
                && msg@ == complaint(line_fields(line@), line_number as nat),
            Err(InsultError::ParseError(_)) => true,
            Err(_) => false,
        },
{
    match field_separator() {
        Ok(separator) => parse_line_with(&separator, line, line_number),
        Err(e) => Err(e),
    }
}

/// Reads the phrases of `content`, one per line.
///
/// Blank lines are passed over. The first line that is neither blank nor a
/// phrase ends the reading with an `InvalidFormat` error that names the line,
/// counted from one over all lines; so does a text without any phrase. A
/// `ParseError` comes back if, and only if, there is a line to parse and the
/// field separator does not compile.
pub fn read_phrases(content: &str) -> (r: Result<PhraseList, InsultError>)
    ensures
        (r matches Err(InsultError::ParseError(_))) <==> (!regex_compiles(separator_pattern())
            && exists|i: int| is_parsed_line(text_lines(content@), i)),
        match r {
            Ok(phrases) => {
                &&& read_outcome(content@) == Ok::<_, Seq<char>>(phrases.deep_view())
                &&& is_phrase_list(phrases.deep_view())
            },
            Err(InsultError::InvalidFormat(msg)) => read_outcome(content@) == Err::<
                Seq<Seq<Seq<char>>>,
                _,
            >(msg@),
            Err(InsultError::ParseError(_)) => true,
            Err(_) => false,
        },
{
    let lines = lines_of(content);
    let ghost all = text_lines(content@);
    let mut phrases: PhraseList = Vec::new();
    let mut i: usize = 0;
    while i < lines.len()
        invariant
            i <= lines.len(),
            lines.deep_view() == all,
            all == text_lines(content@),
            forall|j: int| 0 <= j < i ==> !is_malformed(#[trigger] all[j]),
            !regex_compiles(separator_pattern()) ==> forall|j: int|
                0 <= j < i ==> is_blank(#[trigger] all[j]),
            phrases.deep_view() == phrases_of(all.take(i as int)),
        decreases lines.len() - i,
    {
        let line = lines[i];
        proof {
            lemma_blank_trims_to_nothing(line@);
            lemma_phrases_of_push(all.take(i as int), line@);
            assert(all.take(i as int).push(line@) =~= all.take(i + 1));
        }
        if !line.trim().is_empty() {
            match parse_line(line, i + 1) {
                Ok(phrase) => {
                    phrases.push(phrase);
                },
                Err(e) => {
                    proof {
                        assert(is_parsed_line(all, i as int));
                        if e is InvalidFormat {
                            assert(is_first_malformed(all, i as int));
                        }
                    }
                    return Err(e);
                },
            }
        }
        i += 1;
    }
    proof {
        assert(all.take(i as int) =~= all);
        lemma_text_lines(content@);
        lemma_accepted_lines(all);
    }
    if phrases.len() == 0 {
        return Err(InsultError::InvalidFormat("No valid phrases found".to_owned()));
    }
    Ok(phrases)
}

/// Whether `path` selects the phrase text that is built in, which it does by
/// naming the default file.
pub fn uses_embedded_data(path: &str, default_file: &str) -> (embedded: bool)
    ensures
        embedded == (path@ == default_file@),
{
    same_text(path, default_file)
}

// ---------------------------------------------------------------------------
// How the phrases follow the lines
// ---------------------------------------------------------------------------

/// One more line is one more filled line unless it is blank, and then its
/// fields are one more phrase.
pub proof fn lemma_phrases_of_push(lines: Seq<Seq<char>>, line: Seq<char>)
    ensures
        filled_lines(lines.push(line)) == if is_blank(line) {
            filled_lines(lines)
        } else {
            filled_lines(lines).push(line)
        },
        phrases_of(lines.push(line)) == if is_blank(line) {
            phrases_of(lines)
        } else {
            phrases_of(lines).push(line_fields(line))
        },
{
    let kept = |line: Seq<char>| !is_blank(line);
    assert(lines.push(line).drop_last() =~= lines);
    assert(lines.push(line).filter(kept) == if kept(line) {
        lines.filter(kept).push(line)
    } else {
        lines.filter(kept)
    }) by {
        reveal_with_fuel(Seq::filter, 2);
    }
}

/// Where no line is blank, all lines are filled lines, and the phrases are
/// the fields of the lines, one for one.
pub proof fn lemma_phrases_of_filled_lines(lines: Seq<Seq<char>>)
    requires
        forall|i: int| 0 <= i < lines.len() ==> !is_blank(#[trigger] lines[i]),
    ensures
        filled_lines(lines) == lines,
        phrases_of(lines) == lines.map_values(|line: Seq<char>| line_fields(line)),
    decreases lines.len(),
{
    if lines.len() == 0 {
        assert(filled_lines(lines) =~= lines) by {
            reveal_with_fuel(Seq::filter, 1);
        }
    } else {
        let front = lines.drop_last();
        lemma_phrases_of_filled_lines(front);
        lemma_phrases_of_push(front, lines.last());
        assert(front.push(lines.last()) =~= lines);
    }
}

/// Where every line is blank, there are no phrases.
pub proof fn lemma_phrases_of_blank_lines(lines: Seq<Seq<char>>)
    requires
        forall|i: int| 0 <= i < lines.len() ==> is_blank(#[trigger] lines[i]),
    ensures
        phrases_of(lines).len() == 0,
    decreases lines.len(),
{
    if lines.len() > 0 {
        let front = lines.drop_last();
        lemma_phrases_of_blank_lines(front);
        lemma_phrases_of_push(front, lines.last());
        assert(front.push(lines.last()) =~= lines);
    }
}

/// Taking a blank line out leaves the filled lines and the phrases as they
/// are.
pub proof fn lemma_phrases_of_remove_blank(lines: Seq<Seq<char>>, i: int)
    requires
        0 <= i < lines.len(),
        is_blank(lines[i]),
    ensures
        filled_lines(lines.remove(i)) == filled_lines(lines),
        phrases_of(lines.remove(i)) == phrases_of(lines),
    decreases lines.len(),
{
    let front = lines.drop_last();
    assert(front.push(lines.last()) =~= lines);
    lemma_phrases_of_push(front, lines.last());
    if i < lines.len() - 1 {
        lemma_phrases_of_remove_blank(front, i);
        assert(front.remove(i).push(lines.last()) =~= lines.remove(i));
        lemma_phrases_of_push(front.remove(i), lines.last());
    }
}

/// Every phrase holds the fields of a line that is not blank.
pub proof fn lemma_phrases_come_from_lines(lines: Seq<Seq<char>>)
    ensures
        forall|k: int|
            0 <= k < phrases_of(lines).len() ==> is_phrase_of(
                #[trigger] phrases_of(lines)[k],
                lines,
            ),
    decreases lines.len(),
{
    if lines.len() > 0 {
        let front = lines.drop_last();
        lemma_phrases_come_from_lines(front);
        lemma_phrases_of_push(front, lines.last());
        assert(front.push(lines.last()) =~= lines);
        assert forall|k: int| 0 <= k < phrases_of(lines).len() implies is_phrase_of(
            #[trigger] phrases_of(lines)[k],
            lines,
        ) by {
            if k < phrases_of(front).len() {
                let j = choose|j: int|
                    0 <= j < front.len() && !is_blank(#[trigger] front[j]) && phrases_of(front)[k]
                        == line_fields(front[j]);
                assert(lines[j] == front[j]);
            } else {
                assert(phrases_of(lines)[k] == line_fields(lines.last()));
            }
        }
    }
}

/// Among lines of which one is malformed, one is the first to be so.
pub proof fn lemma_first_malformed_exists(lines: Seq<Seq<char>>, k: int)
    requires
        0 <= k < lines.len(),
        is_malformed(lines[k]),
    ensures
        exists|i: int| is_first_malformed(lines, i),
    decreases k,
{
    if exists|j: int| 0 <= j < k && is_malformed(#[trigger] lines[j]) {
        let j = choose|j: int| 0 <= j < k && is_malformed(#[trigger] lines[j]);
        lemma_first_malformed_exists(lines, j);
    } else {
        assert(is_first_malformed(lines, k));
    }
}

/// A blank line has one field, an empty one.
pub proof fn lemma_blank_line_fields(line: Seq<char>)
    requires
        is_blank(line),
    ensures
        line_fields(line) == seq![Seq::<char>::empty()],
{
    lemma_blank_trims_to_nothing(line);
    let t = trimmed(line);
    assert(t =~= Seq::<char>::empty());
    assert(trimmed(t) =~= t);
}

/// A text that holds something other than white space does not trim to nothing.
proof fn lemma_keeps_what_is_not_white(s: Seq<char>, i: int)
    requires
        0 <= i < s.len(),
        !is_whitespace(s[i]),
    ensures
        trimmed(s).len() > 0,
{
    lemma_blank_trims_to_nothing(s);
}

/// What the fields of a line that is not blank are like: there is at least
/// one, each is made of characters of the line, none holds a tab, each is
/// trimmed, and the first and the last are not empty.
pub proof fn lemma_line_fields(line: Seq<char>)
    requires
        !is_blank(line),
    ensures
        line_fields(line).len() >= 1,
        forall|k: int, i: int|
            0 <= k < line_fields(line).len() && 0 <= i < line_fields(line)[k].len()
                ==> #[trigger] line_fields(line)[k][i] != '\t' && line.contains(
                line_fields(line)[k][i],
            ),
        forall|k: int|
            0 <= k < line_fields(line).len() ==> trimmed(#[trigger] line_fields(line)[k])
                == line_fields(line)[k],
        line_fields(line).first().len() > 0,
        line_fields(line).last().len() > 0,
{
    let t = trimmed(line);
    let pieces = tab_fields(t);
    let fields = line_fields(line);
    lemma_blank_trims_to_nothing(line);
    lemma_trimmed(line);
    lemma_tab_fields(t);
    assert forall|k: int| 0 <= k < fields.len() implies trimmed(#[trigger] fields[k])
        == fields[k] by {
        lemma_trimmed(pieces[k]);
    }
    assert forall|k: int, i: int| 0 <= k < fields.len() && 0 <= i < fields[k].len() implies
        #[trigger] fields[k][i] != '\t' && line.contains(fields[k][i]) by {
        lemma_trimmed(pieces[k]);
        let (from, to) = choose|from: int, to: int|
            0 <= from <= to <= pieces[k].len() && trimmed(pieces[k])
                == #[trigger] pieces[k].subrange(from, to);
        assert(fields[k][i] == pieces[k][from + i]);
        assert(t.contains(pieces[k][from + i]));
        let (start, end) = choose|start: int, end: int|
            0 <= start <= end <= line.len() && t == #[trigger] line.subrange(start, end);
        let at = choose|at: int| 0 <= at < t.len() && t[at] == fields[k][i];
        assert(line[start + at] == fields[k][i]);
    }
    assert(fields.first().len() > 0) by {
        assert(pieces.first()[0] == t[0]);
        lemma_keeps_what_is_not_white(pieces.first(), 0);
    }
    assert(fields.last().len() > 0) by {
        lemma_keeps_what_is_not_white(pieces.last(), pieces.last().len() - 1);
    }
}

/// Lines without line feeds that are accepted give a phrase list as
/// [`is_phrase_list`] says.
pub proof fn lemma_accepted_lines(lines: Seq<Seq<char>>)
    requires
        forall|k: int, i: int|
            0 <= k < lines.len() && 0 <= i < lines[k].len() ==> #[trigger] lines[k][i] != '\n',
    ensures
        lines_outcome(lines) matches Ok(phrases) ==> is_phrase_list(phrases),
{
    if lines_outcome(lines) is Ok {
        let phrases = phrases_of(lines);
        lemma_phrases_come_from_lines(lines);
        assert forall|k: int| 0 <= k < phrases.len() implies is_plain_phrase(
            #[trigger] phrases[k],
        ) by {
            let j = choose|j: int|
                0 <= j < lines.len() && !is_blank(#[trigger] lines[j]) && phrases[k]
                    == line_fields(lines[j]);
            if is_malformed(lines[j]) {
                lemma_first_malformed_exists(lines, j);
            }
            lemma_line_fields(lines[j]);
            let fields = line_fields(lines[j]);
            assert forall|f: int| 0 <= f < 3 implies is_plain_field(#[trigger] fields[f]) by {
                lemma_trimmed(fields[f]);
            }
        }
    }
}

// ---------------------------------------------------------------------------
// What reading guarantees
// ---------------------------------------------------------------------------

/// A text in which every line holds exactly three fields, none of them
/// empty, and which has at least one line, is read as one phrase for each
/// line, in the order of the lines, and every field of every phrase is
/// trimmed.
pub proof fn lemma_well_formed_text(text: Seq<char>)
    requires
        text_lines(text).len() >= 1,
        forall|i: int|
            0 <= i < text_lines(text).len() ==> are_phrase_fields(
                #[trigger] line_fields(text_lines(text)[i]),
            ),
    ensures
        read_outcome(text) matches Ok(phrases) && {
            &&& phrases.len() == text_lines(text).len()
            &&& forall|i: int|
                0 <= i < phrases.len() ==> #[trigger] phrases[i] == line_fields(
                    text_lines(text)[i],
                )
            &&& forall|i: int|
                0 <= i < phrases.len() ==> (#[trigger] phrases[i]).len()
                    == EXPECTED_FIELDS_PER_LINE
            &&& forall|i: int, f: int|
                0 <= i < phrases.len() && 0 <= f < EXPECTED_FIELDS_PER_LINE ==> trimmed(
                    #[trigger] phrases[i][f],
                ) == phrases[i][f]
        },
{
    let lines = text_lines(text);
    assert forall|i: int| 0 <= i < lines.len() implies !is_blank(#[trigger] lines[i])
        && !is_malformed(lines[i]) by {
        if is_blank(lines[i]) {
            lemma_blank_line_fields(lines[i]);
        }
    }
    lemma_phrases_of_filled_lines(lines);
    let phrases = phrases_of(lines);
    assert forall|i: int, f: int|
        0 <= i < phrases.len() && 0 <= f < EXPECTED_FIELDS_PER_LINE implies trimmed(
        #[trigger] phrases[i][f],
    ) == phrases[i][f] by {
        lemma_trimmed(tab_fields(trimmed(lines[i]))[f]);
    }
}

/// The first line that is neither blank nor a phrase ends the reading: the
/// text is refused with that line's number, counted from one over all lines,
/// blank ones included. Where the line has not three fields, the refusal
/// gives the number of fields it has.
pub proof fn lemma_first_malformed_line_is_reported(text: Seq<char>, i: int)
    requires
        is_first_malformed(text_lines(text), i),
    ensures
        read_outcome(text) == Err::<Seq<Seq<Seq<char>>>, _>(
            complaint(line_fields(text_lines(text)[i]), (i + 1) as nat),
        ),
        line_fields(text_lines(text)[i]).len() != EXPECTED_FIELDS_PER_LINE ==> read_outcome(text)
            == Err::<Seq<Seq<Seq<char>>>, _>(
            field_count_message((i + 1) as nat, line_fields(text_lines(text)[i]).len()),
        ),
{
}

/// Blank lines leave no trace. A blank line is never counted as malformed,
/// every phrase comes from a line that is not blank, and with a blank line
/// taken out the lines are accepted or refused as before, give the same
/// phrases, and are refused for the same line.
pub proof fn lemma_blank_lines_leave_no_trace(lines: Seq<Seq<char>>, i: int)
    requires
        0 <= i < lines.len(),
        is_blank(lines[i]),
    ensures
        !is_malformed(lines[i]),
        forall|k: int|
            0 <= k < phrases_of(lines).len() ==> is_phrase_of(
                #[trigger] phrases_of(lines)[k],
                lines,
            ),
        phrases_of(lines.remove(i)) == phrases_of(lines),
        first_malformed_line(lines.remove(i)) == first_malformed_line(lines),
        lines_outcome(lines.remove(i)) is Ok <==> lines_outcome(lines) is Ok,
        lines_outcome(lines) is Ok ==> lines_outcome(lines.remove(i)) == lines_outcome(lines),
{
    let shorter = lines.remove(i);
    lemma_phrases_of_remove_blank(lines, i);
    lemma_phrases_come_from_lines(lines);
    if exists|k: int| is_first_malformed(lines, k) {
        let k = choose|k: int| is_first_malformed(lines, k);
        let moved = if k < i {
            k
        } else {
            k - 1
        };
        assert(is_first_malformed(shorter, moved));
    }
    if exists|k: int| is_first_malformed(shorter, k) {
        let k = choose|k: int| is_first_malformed(shorter, k);
        let moved = if k < i {
            k
        } else {
            k + 1
        };
        lemma_first_malformed_exists(lines, moved);
    }
}

/// Leaving out all blank lines changes neither the filled lines nor the line
/// that the lines are refused for.
pub proof fn lemma_without_blank_lines(lines: Seq<Seq<char>>)
    ensures
        filled_lines(filled_lines(lines)) == filled_lines(lines),
        first_malformed_line(filled_lines(lines)) == first_malformed_line(lines),
    decreases lines.len(),
{
    if exists|i: int| 0 <= i < lines.len() && is_blank(#[trigger] lines[i]) {
        let i = choose|i: int| 0 <= i < lines.len() && is_blank(#[trigger] lines[i]);
        lemma_blank_lines_leave_no_trace(lines, i);
        lemma_phrases_of_remove_blank(lines, i);
        lemma_without_blank_lines(lines.remove(i));
    } else {
        lemma_phrases_of_filled_lines(lines);
    }
}

/// Blank lines do not count. Two texts that differ only in blank lines, put
/// in or left out at any places, are both accepted, with the same phrases, or
/// both refused; and where they are refused for a malformed line, it is the
/// same line in both, so that the two refusals differ in the number of that
/// line at most.
pub proof fn lemma_blank_lines_do_not_count(a: Seq<Seq<char>>, b: Seq<Seq<char>>)
    requires
        filled_lines(a) == filled_lines(b),
    ensures
        lines_outcome(a) is Ok <==> lines_outcome(b) is Ok,
        lines_outcome(a) is Ok ==> lines_outcome(a) == lines_outcome(b),
        first_malformed_line(a) == first_malformed_line(b),
        first_malformed_line(a) is None ==> lines_outcome(a) == lines_outcome(b),
        forall|i: int, j: int|
            is_first_malformed(a, i) && is_first_malformed(b, j) ==> a[i] == b[j]
                && lines_outcome(a) == Err::<Seq<Seq<Seq<char>>>, _>(
                complaint(line_fields(a[i]), (i + 1) as nat),
            ) && lines_outcome(b) == Err::<Seq<Seq<Seq<char>>>, _>(
                complaint(line_fields(a[i]), (j + 1) as nat),
            ),
{
    lemma_without_blank_lines(a);
    lemma_without_blank_lines(b);
}

/// A text whose lines are all blank, and so a text without any line, is
/// refused for holding no phrase.
pub proof fn lemma_blank_text_is_refused(text: Seq<char>)
    requires
        forall|i: int|
            0 <= i < text_lines(text).len() ==> is_blank(#[trigger] text_lines(text)[i]),
    ensures
        read_outcome(text) == Err::<Seq<Seq<Seq<char>>>, _>(no_phrases_message()),
{
    lemma_phrases_of_blank_lines(text_lines(text));
}

/// A line made of three fields with a run of tabs after the first and after
/// the second has those fields, each trimmed, and is a phrase.
pub proof fn lemma_line_of_parts(line: Seq<char>, parts: Seq<Seq<char>>)
    requires
        is_line_of_parts(line, parts),
    ensures
        line_fields(line) == seq![trimmed(parts[0]), trimmed(parts[2]), trimmed(parts[4])],
        are_phrase_fields(line_fields(line)),
        !is_blank(line),
{
    let middle = parts[1] + parts[2] + parts[3];
    assert(line =~= parts[0] + middle + parts[4]);
    lemma_trimmed_of_three(parts[0], middle, parts[4]);
    let head = parts[0].skip(leading(parts[0], whitespace()) as int);
    let tail = parts[4].take(parts[4].len() - trailing(parts[4], whitespace()));
    let t = trimmed(line);
    lemma_blank_trims_to_nothing(parts[0]);
    lemma_blank_trims_to_nothing(parts[2]);
    lemma_blank_trims_to_nothing(parts[4]);
    lemma_tab_fields_of_one_piece(tail);
    lemma_tab_fields_of_more_pieces(parts[2], parts[3], tail);
    let rest = parts[2] + parts[3] + tail;
    lemma_tab_fields_of_more_pieces(head, parts[1], rest);
    assert(t =~= head + parts[1] + rest);
    lemma_blank_trims_to_nothing(line);
}

/// A text of one or more lines, each made of three fields with runs of tabs
/// between them, is read as one phrase for each line, in the order of the
/// lines, each phrase holding the three fields of its line, trimmed.
pub proof fn lemma_tab_separated_text(text: Seq<char>, parts: Seq<Seq<Seq<char>>>)
    requires
        text_lines(text).len() == parts.len() >= 1,
        forall|n: int|
            0 <= n < parts.len() ==> is_line_of_parts(text_lines(text)[n], #[trigger] parts[n]),
    ensures
        read_outcome(text) matches Ok(phrases) && {
            &&& phrases.len() == parts.len()
            &&& forall|n: int|
                0 <= n < phrases.len() ==> #[trigger] phrases[n] == seq![
                    trimmed(parts[n][0]),
                    trimmed(parts[n][2]),
                    trimmed(parts[n][4]),
                ]
        },
{
    let lines = text_lines(text);
    assert forall|n: int| 0 <= n < lines.len() implies are_phrase_fields(
        #[trigger] line_fields(lines[n]),
    ) && line_fields(lines[n]) == seq![
        trimmed(parts[n][0]),
        trimmed(parts[n][2]),
        trimmed(parts[n][4]),
    ] by {
        lemma_line_of_parts(lines[n], parts[n]);
    }
    lemma_well_formed_text(text);
}

/// The line of a plain phrase is not blank, holds no line feed, does not end
/// with a carriage return, and has the fields of the phrase.
pub proof fn lemma_phrase_line_reads_back(phrase: Seq<Seq<char>>)
    requires
        is_plain_phrase(phrase),
    ensures
        !is_blank(phrase_line(phrase)),
        without_cr(phrase_line(phrase)) == phrase_line(phrase),
        forall|i: int|
            0 <= i < phrase_line(phrase).len() ==> #[trigger] phrase_line(phrase)[i] != '\n',
        line_fields(phrase_line(phrase)) == phrase,
{
    let line = phrase_line(phrase);
    let tab = seq!['\t'];
    lemma_trimmed_of_tight(line);
    lemma_tab_fields_of_one_piece(phrase[2]);
    lemma_tab_fields_of_more_pieces(phrase[1], tab, phrase[2]);
    let rest = phrase[1] + tab + phrase[2];
    lemma_tab_fields_of_more_pieces(phrase[0], tab, rest);
    assert(line =~= phrase[0] + tab + rest);
    lemma_trimmed_of_tight(phrase[0]);
    lemma_trimmed_of_tight(phrase[1]);
    lemma_trimmed_of_tight(phrase[2]);
}

/// The lines of the text that states `phrases` are the lines of the
/// phrases, whether or not a line feed ends the text.
pub proof fn lemma_phrases_text_lines(phrases: Seq<Seq<Seq<char>>>, ending: Seq<char>)
    requires
        phrases.len() >= 1,
        forall|i: int| 0 <= i < phrases.len() ==> is_plain_phrase(#[trigger] phrases[i]),
        ending == Seq::<char>::empty() || ending == seq!['\n'],
    ensures
        text_lines(phrases_text(phrases) + ending) == phrases.map_values(
            |phrase: Seq<Seq<char>>| phrase_line(phrase),
        ),
    decreases phrases.len(),
{
    let line = phrase_line(phrases.first());
    let rest = phrases.drop_first();
    if phrases.len() == 1 {
        if ending.len() == 0 {
            lemma_text_lines_of_one_line(line);
        } else {
            lemma_text_lines_of_more_lines(line, Seq::empty());
        }
    } else {
        lemma_phrases_text_lines(rest, ending);
        lemma_text_lines_of_more_lines(line, phrases_text(rest) + ending);
        assert(phrases_text(phrases) + ending =~= line + seq!['\n'] + (phrases_text(rest)
            + ending));
    }
}

/// A text whose lines are the lines of plain phrases is read as those phrases.
proof fn lemma_lines_of_phrases_read_back(text: Seq<char>, phrases: Seq<Seq<Seq<char>>>)
    requires
        phrases.len() >= 1,
        forall|i: int| 0 <= i < phrases.len() ==> is_plain_phrase(#[trigger] phrases[i]),
        text_lines(text) == phrases.map_values(|phrase: Seq<Seq<char>>| phrase_line(phrase)),
    ensures
        read_outcome(text) == Ok::<_, Seq<char>>(phrases),
{
    let lines = text_lines(text);
    assert forall|i: int| 0 <= i < lines.len() implies are_phrase_fields(
        #[trigger] line_fields(lines[i]),
    ) && line_fields(lines[i]) == phrases[i] by {
        lemma_phrase_line_reads_back(phrases[i]);
    }
    lemma_well_formed_text(text);
    assert(read_outcome(text)->Ok_0 =~= phrases);
}

/// Writing and reading agree. The text that states one or more plain
/// phrases, a line for each with tabs between the fields and line feeds
/// between the lines, is read back as exactly those phrases, and so it is with
/// a line feed at its end.
pub proof fn lemma_written_phrases_read_back(phrases: Seq<Seq<Seq<char>>>)
    requires
        phrases.len() >= 1,
        forall|i: int| 0 <= i < phrases.len() ==> is_plain_phrase(#[trigger] phrases[i]),
    ensures
        read_outcome(phrases_text(phrases)) == Ok::<_, Seq<char>>(phrases),
        read_outcome(phrases_text(phrases) + seq!['\n']) == Ok::<_, Seq<char>>(phrases),
{
    lemma_phrases_text_lines(phrases, Seq::empty());
    lemma_phrases_text_lines(phrases, seq!['\n']);
    assert(phrases_text(phrases) + Seq::<char>::empty() =~= phrases_text(phrases));
    lemma_lines_of_phrases_read_back(phrases_text(phrases), phrases);
    lemma_lines_of_phrases_read_back(phrases_text(phrases) + seq!['\n'], phrases);
}

} // verus!

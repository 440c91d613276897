//! The text model that the parser rests on: white space and trimming, lines,
//! tab-separated pieces, and decimal numbers, each as a function on sequences
//! of characters, with the calls into `std` that compute them.

use vstd::prelude::*;
use vstd::string::*;
use vstd::utf8::encode_utf8_decode_utf8;

verus! {

/// Whether `c` has the Unicode property `White_Space`.
pub open spec fn is_whitespace(c: char) -> bool {
    let u = c as u32;
    ||| 0x09 <= u <= 0x0D
    ||| u == 0x20
    ||| u == 0x85
    ||| u == 0xA0
    ||| u == 0x1680
    ||| 0x2000 <= u <= 0x200A
    ||| u == 0x2028
    ||| u == 0x2029
    ||| u == 0x202F
    ||| u == 0x205F
    ||| u == 0x3000
}

/// The predicate "is a tab".
pub open spec fn tab() -> spec_fn(char) -> bool {
    |c: char| c == '\t'
}

/// The predicate "is white space".
pub open spec fn whitespace() -> spec_fn(char) -> bool {
    |c: char| is_whitespace(c)
}

/// The predicate "is anything but `stop`".
pub open spec fn other_than(stop: char) -> spec_fn(char) -> bool {
    |c: char| c != stop
}

/// How many items at the start of `s` satisfy `p` without interruption.
pub open spec fn leading(s: Seq<char>, p: spec_fn(char) -> bool) -> nat
    decreases s.len(),
{
    if s.len() > 0 && p(s.first()) {
        1 + leading(s.drop_first(), p)
    } else {
        0
    }
}

/// How many items at the end of `s` satisfy `p` without interruption.
pub open spec fn trailing(s: Seq<char>, p: spec_fn(char) -> bool) -> nat
    decreases s.len(),
{
    if s.len() > 0 && p(s.last()) {
        1 + trailing(s.drop_last(), p)
    } else {
        0
    }
}

/// `s` without the white space at its start and at its end.
pub open spec fn trimmed(s: Seq<char>) -> Seq<char> {
    let rest = s.skip(leading(s, whitespace()) as int);
    rest.take(rest.len() - trailing(rest, whitespace()))
}

/// Whether a line holds nothing but white space.
pub open spec fn is_blank(line: Seq<char>) -> bool {
    forall|i: int| 0 <= i < line.len() ==> is_whitespace(#[trigger] line[i])
}

/// `line` without the carriage return at its end, if it has one.
pub open spec fn without_cr(line: Seq<char>) -> Seq<char> {
    if line.len() > 0 && line.last() == '\r' {
        line.drop_last()
    } else {
        line
    }
}

/// The lines of `text`. Every line feed ends a line; the line feed itself and
/// a carriage return just before it belong to no line. What follows the last
/// line feed is a line of its own unless it is empty.
pub open spec fn text_lines(text: Seq<char>) -> Seq<Seq<char>>
    decreases text.len(),
{
    let n = leading(text, other_than('\n')) as int;
    if text.len() == 0 {
        Seq::empty()
    } else if n >= text.len() {
        seq![text]
    } else {
        seq![without_cr(text.take(n))] + text_lines(text.skip(n + 1))
    }
}

/// The pieces of `text` between its runs of tabs. A run at the very start or
/// end of `text` has an empty piece beside it, and a text without tabs is one
/// piece.
pub open spec fn tab_fields(text: Seq<char>) -> Seq<Seq<char>>
    decreases text.len(),
    via tab_fields_decreases
{
    let n = leading(text, other_than('\t')) as int;
    if n >= text.len() {
        seq![text]
    } else {
        let run = leading(text.skip(n), tab()) as int;
        seq![text.take(n)] + tab_fields(text.skip(n + run))
    }
}

#[via_fn]
proof fn tab_fields_decreases(text: Seq<char>) {
    let n = leading(text, other_than('\t')) as int;
    if n < text.len() {
        lemma_leading(text.skip(n), tab());
    }
}

/// The decimal digit for `d`.
pub open spec fn digit(d: nat) -> char
    recommends
        d < 10,
{
    seq!['0', '1', '2', '3', '4', '5', '6', '7', '8', '9'][d as int]
}

/// `n` written in decimal, without leading zeros.
pub open spec fn decimal(n: nat) -> Seq<char>
    decreases n,
{
    if n < 10 {
        seq![digit(n)]
    } else {
        decimal(n / 10).push(digit(n % 10))
    }
}

/// `leading` stays within `s`, everything it counts satisfies `p`, and the
/// item after them, if there is one, does not.
pub proof fn lemma_leading(s: Seq<char>, p: spec_fn(char) -> bool)
    ensures
        leading(s, p) <= s.len(),
        forall|i: int| 0 <= i < leading(s, p) ==> p(#[trigger] s[i]),
        leading(s, p) < s.len() ==> !p(s[leading(s, p) as int]),
    decreases s.len(),
{
    if s.len() > 0 && p(s.first()) {
        let rest = s.drop_first();
        lemma_leading(rest, p);
        assert forall|i: int| 0 <= i < leading(s, p) implies p(#[trigger] s[i]) by {
            if i > 0 {
                assert(s[i] == rest[i - 1]);
            }
        }
    }
}

/// `trailing` stays within `s`, everything it counts satisfies `p`, and the
/// item before them, if there is one, does not.
pub proof fn lemma_trailing(s: Seq<char>, p: spec_fn(char) -> bool)
    ensures
        trailing(s, p) <= s.len(),
        forall|i: int| s.len() - trailing(s, p) <= i < s.len() ==> p(#[trigger] s[i]),
        trailing(s, p) < s.len() ==> !p(s[s.len() - trailing(s, p) - 1]),
    decreases s.len(),
{
    if s.len() > 0 && p(s.last()) {
        let rest = s.drop_last();
        lemma_trailing(rest, p);
        assert forall|i: int| s.len() - trailing(s, p) <= i < s.len() implies p(
            #[trigger] s[i],
        ) by {
            if i < s.len() - 1 {
                assert(s[i] == rest[i]);
            }
        }
    }
}

/// `leading` is `n` where the first `n` items satisfy `p` and the next one,
/// if there is one, does not.
pub proof fn lemma_leading_is(s: Seq<char>, p: spec_fn(char) -> bool, n: int)
    requires
        0 <= n <= s.len(),
        forall|i: int| 0 <= i < n ==> p(#[trigger] s[i]),
        n < s.len() ==> !p(s[n]),
    ensures
        leading(s, p) == n,
{
    lemma_leading(s, p);
}

/// `trailing` is `n` where the last `n` items satisfy `p` and the one before
/// them, if there is one, does not.
pub proof fn lemma_trailing_is(s: Seq<char>, p: spec_fn(char) -> bool, n: int)
    requires
        0 <= n <= s.len(),
        forall|i: int| s.len() - n <= i < s.len() ==> p(#[trigger] s[i]),
        n < s.len() ==> !p(s[s.len() - n - 1]),
    ensures
        trailing(s, p) == n,
{
    lemma_trailing(s, p);
}

/// A line trims to nothing exactly when it is blank.
pub proof fn lemma_blank_trims_to_nothing(line: Seq<char>)
    ensures
        trimmed(line).len() == 0 <==> is_blank(line),
{
    let start = leading(line, whitespace()) as int;
    lemma_leading(line, whitespace());
    let rest = line.skip(start);
    lemma_trailing(rest, whitespace());
    if start < line.len() {
        if trailing(rest, whitespace()) == rest.len() {
            assert(whitespace()(rest[0]));
        }
    }
}

/// A text that neither starts nor ends with white space is its own trimming.
pub proof fn lemma_trimmed_of_tight(s: Seq<char>)
    requires
        s.len() > 0 ==> !is_whitespace(s.first()) && !is_whitespace(s.last()),
    ensures
        trimmed(s) == s,
{
}

/// Trimming takes a part out of the text: what is left stood in the text,
/// side by side, and neither starts nor ends with white space, so that
/// trimming it again changes nothing.
pub proof fn lemma_trimmed(s: Seq<char>)
    ensures
        exists|from: int, to: int|
            0 <= from <= to <= s.len() && trimmed(s) == #[trigger] s.subrange(from, to),
        trimmed(s).len() > 0 ==> !is_whitespace(trimmed(s).first()) && !is_whitespace(
            trimmed(s).last(),
        ),
        trimmed(trimmed(s)) == trimmed(s),
{
    let start = leading(s, whitespace()) as int;
    lemma_leading(s, whitespace());
    let rest = s.skip(start);
    lemma_trailing(rest, whitespace());
    let t = trimmed(s);
    assert(t =~= s.subrange(start, start + t.len()));
}

/// Trimming a text between two others. Where `head` and `tail` are not
/// blank, the white space before `head + middle + tail` is that before
/// `head`, and the white space after it is that after `tail`.
pub proof fn lemma_trimmed_of_three(head: Seq<char>, middle: Seq<char>, tail: Seq<char>)
    requires
        !is_blank(head),
        !is_blank(tail),
    ensures
        trimmed(head + middle + tail) == head.skip(leading(head, whitespace()) as int) + middle
            + tail.take(tail.len() - trailing(tail, whitespace())),
        trimmed(head.skip(leading(head, whitespace()) as int)) == trimmed(head),
        trimmed(tail.take(tail.len() - trailing(tail, whitespace()))) == trimmed(tail),
        leading(head, whitespace()) < head.len(),
        trailing(tail, whitespace()) < tail.len(),
{
    let text = head + middle + tail;
    let a = leading(head, whitespace()) as int;
    let b = trailing(tail, whitespace()) as int;
    let c = leading(tail, whitespace()) as int;
    lemma_leading(head, whitespace());
    lemma_leading(tail, whitespace());
    lemma_trailing(tail, whitespace());
    // The white space before and after the whole text.
    lemma_leading_is(text, whitespace(), a);
    lemma_trailing_is(text.skip(a), whitespace(), b);
    // The two ends, trimmed again.
    assert(head.skip(a).skip(0) =~= head.skip(a));
    lemma_leading_is(tail.take(tail.len() - b), whitespace(), c);
    lemma_trailing_is(tail.skip(c), whitespace(), b);
}

/// A text without tabs is one piece.
pub proof fn lemma_tab_fields_of_one_piece(piece: Seq<char>)
    requires
        forall|i: int| 0 <= i < piece.len() ==> #[trigger] piece[i] != '\t',
    ensures
        tab_fields(piece) == seq![piece],
{
    lemma_leading_is(piece, other_than('\t'), piece.len() as int);
}

/// A piece, a run of tabs and a rest that does not start with a tab are cut
/// into the piece and the pieces of the rest.
pub proof fn lemma_tab_fields_of_more_pieces(piece: Seq<char>, run: Seq<char>, rest: Seq<char>)
    requires
        forall|i: int| 0 <= i < piece.len() ==> #[trigger] piece[i] != '\t',
        run.len() >= 1,
        forall|i: int| 0 <= i < run.len() ==> #[trigger] run[i] == '\t',
        rest.len() > 0 ==> rest[0] != '\t',
    ensures
        tab_fields(piece + run + rest) == seq![piece] + tab_fields(rest),
{
    let text = piece + run + rest;
    let n = piece.len() as int;
    lemma_leading_is(text, other_than('\t'), n);
    lemma_leading_is(text.skip(n), tab(), run.len() as int);
    assert(text.take(n) =~= piece);
    assert(text.skip(n + run.len()) =~= rest);
}

/// What `tab_fields` cuts a text into: at least one piece, each made of
/// characters of the text and none holding a tab; the first piece is the text
/// up to its first tab; and where the text does not end with a tab, the last
/// piece is not empty and ends as the text does.
pub proof fn lemma_tab_fields(text: Seq<char>)
    ensures
        tab_fields(text).len() >= 1,
        forall|k: int, i: int|
            0 <= k < tab_fields(text).len() && 0 <= i < tab_fields(text)[k].len()
                ==> #[trigger] tab_fields(text)[k][i] != '\t' && text.contains(
                tab_fields(text)[k][i],
            ),
        tab_fields(text).first() == text.take(leading(text, other_than('\t')) as int),
        text.len() > 0 && text.last() != '\t' ==> tab_fields(text).last().len() > 0
            && tab_fields(text).last().last() == text.last(),
    decreases text.len(),
{
    let n = leading(text, other_than('\t')) as int;
    lemma_leading(text, other_than('\t'));
    if n < text.len() {
        let run = leading(text.skip(n), tab()) as int;
        lemma_leading(text.skip(n), tab());
        let rest = text.skip(n + run);
        lemma_tab_fields(rest);
        if n + run >= text.len() {
            assert(text.skip(n)[run - 1] == text.last());
        }
    }
}

/// No line of a text holds a line feed.
pub proof fn lemma_text_lines(text: Seq<char>)
    ensures
        forall|k: int, i: int|
            0 <= k < text_lines(text).len() && 0 <= i < text_lines(text)[k].len()
                ==> #[trigger] text_lines(text)[k][i] != '\n',
    decreases text.len(),
{
    let n = leading(text, other_than('\n')) as int;
    lemma_leading(text, other_than('\n'));
    let lines = text_lines(text);
    if text.len() > 0 {
        if n < text.len() {
            lemma_text_lines(text.skip(n + 1));
        }
        assert forall|k: int, i: int|
            0 <= k < lines.len() && 0 <= i < lines[k].len() implies #[trigger] lines[k][i]
            != '\n' by {
            if k > 0 {
                assert(lines[k] == text_lines(text.skip(n + 1))[k - 1]);
            }
        }
    }
}

/// A text without a line feed, unless it is empty, is one line.
pub proof fn lemma_text_lines_of_one_line(line: Seq<char>)
    requires
        line.len() > 0,
        forall|i: int| 0 <= i < line.len() ==> #[trigger] line[i] != '\n',
    ensures
        text_lines(line) == seq![line],
{
    lemma_leading_is(line, other_than('\n'), line.len() as int);
}

/// The lines of a first line, a line feed and a rest are the first line,
/// less a carriage return at its end, and the lines of the rest.
pub proof fn lemma_text_lines_of_more_lines(line: Seq<char>, rest: Seq<char>)
    requires
        forall|i: int| 0 <= i < line.len() ==> #[trigger] line[i] != '\n',
    ensures
        text_lines(line + seq!['\n'] + rest) == seq![without_cr(line)] + text_lines(rest),
{
    let text = line + seq!['\n'] + rest;
    let n = line.len() as int;
    lemma_leading_is(text, other_than('\n'), n);
    assert(text.take(n) =~= line);
    assert(text.skip(n + 1) =~= rest);
}

/// `str::trim` hands back the text without the white space at its two ends,
/// white space being the characters with the Unicode property `White_Space`.
pub assume_specification[ str::trim ](s: &str) -> (t: &str)
    ensures
        t@ == trimmed(s@),
;

/// Calls `str::lines` and collects the lines in order. The iterator cuts the
/// text at each `\n`, leaves out the `\n` and a `\r` directly before it, and
/// yields no empty line after a final `\n`.
#[verifier::external_body]
pub(crate) fn lines_of<'a>(text: &'a str) -> (lines: Vec<&'a str>)
    ensures
        lines.deep_view() == text_lines(text@),
{
    text.lines().collect()
}

/// The text that stands for the digit `d`.
fn digit_text(d: usize) -> (text: &'static str)
    requires
        d < 10,
    ensures
        text@ == seq![digit(d as nat)],
{
    proof {
        reveal_strlit("0");
        reveal_strlit("1");
        reveal_strlit("2");
        reveal_strlit("3");
        reveal_strlit("4");
        reveal_strlit("5");
        reveal_strlit("6");
        reveal_strlit("7");
        reveal_strlit("8");
        reveal_strlit("9");
    }
    let text = match d {
        0 => "0",
        1 => "1",
        2 => "2",
        3 => "3",
        4 => "4",
        5 => "5",
        6 => "6",
        7 => "7",
        8 => "8",
        _ => "9",
    };
    text
}

/// Appends `n` in decimal to `out`.
pub(crate) fn push_decimal(out: &mut String, n: usize)
    ensures
        final(out)@ == old(out)@ + decimal(n as nat),
    decreases n,
{
    if n >= 10 {
        push_decimal(out, n / 10);
    }
    out.append(digit_text(n % 10));
}

/// Whether two texts are the same, character for character.
pub(crate) fn same_text(a: &str, b: &str) -> (same: bool)
    ensures
        same == (a@ == b@),
{
    let left = a.as_bytes();
    let right = b.as_bytes();
    proof {
        encode_utf8_decode_utf8(a@);
        encode_utf8_decode_utf8(b@);
    }
    if left.len() != right.len() {
        return false;
    }
    let mut i: usize = 0;
    while i < left.len()
        invariant
            left.len() == right.len(),
            i <= left.len(),
            left@.take(i as int) == right@.take(i as int),
            left@ == a.spec_bytes(),
            right@ == b.spec_bytes(),
        decreases left.len() - i,
    {
        if left[i] != right[i] {
            return false;
        }
        i += 1;
    }
    assert(left@ =~= left@.take(i as int) && right@ =~= right@.take(i as int));
    true
}

} // verus!

//! Building insults from a phrase list: a random sample, or every combination.

use crate::parser::{InsultPhrase, PhraseList};
use rand::rngs::ThreadRng;
use rand::seq::SliceRandom;
use vstd::arithmetic::div_mod::lemma_fundamental_div_mod_converse;
use vstd::prelude::*;
use vstd::string::*;

verus! {

/// One insult of the full enumeration, with its place in it.
#[derive(Debug, PartialEq, Eq)]
pub struct Insult {
    /// The place of the insult in the enumeration, counted from zero.
    pub id: usize,
    /// The insult itself.
    pub insult: String,
}

impl DeepView for Insult {
    type V = (nat, Seq<char>);

    open spec fn deep_view(&self) -> (nat, Seq<char>) {
        (self.id as nat, self.insult@)
    }
}

/// The insult made of two adjectives and a noun.
pub open spec fn insult_text(adjective1: Seq<char>, adjective2: Seq<char>, noun: Seq<char>) -> Seq<
    char,
> {
    "Thou "@ + adjective1 + " "@ + adjective2 + " "@ + noun + "!"@
}

/// The insult made of the three fields of one phrase.
pub open spec fn phrase_insult(phrase: Seq<Seq<char>>) -> Seq<char> {
    insult_text(phrase[0], phrase[1], phrase[2])
}

/// Whether `line` is the insult of one of `phrases`.
pub open spec fn is_insult_of(line: Seq<char>, phrases: Seq<Seq<Seq<char>>>) -> bool {
    exists|i: int| 0 <= i < phrases.len() && line == phrase_insult(#[trigger] phrases[i])
}

/// The number of insults that `n` phrases combine to.
pub open spec fn combination_count(n: nat) -> nat {
    n * n * n
}

/// Entry `index` of the full enumeration. With `n` phrases, the first
/// adjective comes from phrase `index / n²`, the second from phrase
/// `(index / n) % n` and the noun from phrase `index % n`, so the noun's phrase
/// changes fastest and the first adjective's slowest.
pub open spec fn combination(phrases: Seq<Seq<Seq<char>>>, index: int) -> (nat, Seq<char>) {
    let n = phrases.len() as int;
    (
        index as nat,
        insult_text(
            phrases[index / (n * n)][0],
            phrases[(index / n) % n][1],
            phrases[index % n][2],
        ),
    )
}

/// The full enumeration: every first adjective with every second adjective
/// and every noun.
pub open spec fn all_combinations(phrases: Seq<Seq<Seq<char>>>) -> Seq<(nat, Seq<char>)> {
    Seq::new(combination_count(phrases.len()), |index: int| combination(phrases, index))
}

/// `rand::rngs::ThreadRng`, carried through opaquely.
#[verifier::external_type_specification]
#[verifier::external_body]
pub struct ExThreadRng(ThreadRng);

/// `rand::thread_rng` hands out the generator of the current thread, which
/// the operating system seeds on first use. Nothing is known of the numbers
/// that it will give.
pub assume_specification[ rand::thread_rng ]() -> ThreadRng;

/// Calls `SliceRandom::choose` on the phrases: `None` for an empty list, else
/// one of its phrases, whichever the generator picks.
#[verifier::external_body]
fn pick_phrase<'a>(phrases: &'a PhraseList, rng: &mut ThreadRng) -> (picked: Option<
    &'a InsultPhrase,
>)
    ensures
        match picked {
            None => phrases.len() == 0,
            Some(phrase) => exists|i: int| 0 <= i < phrases.len() && phrases[i] == *phrase,
        },
{
    phrases.choose(rng)
}

/// Puts two adjectives and a noun together as `Thou <adjective1> <adjective2> <noun>!`.
pub fn format_insult(adjective1: &str, adjective2: &str, noun: &str) -> (text: String)
    ensures
        text@ == insult_text(adjective1@, adjective2@, noun@),
{
    let mut text = "Thou ".to_owned();
    text.append(adjective1);
    text.append(" ");
    text.append(adjective2);
    text.append(" ");
    text.append(noun);
    text.append("!");
    text
}

/// The insult of one phrase.
pub fn insult_for(phrase: &InsultPhrase) -> (text: String)
    ensures
        text@ == phrase_insult(phrase.deep_view()),
{
    format_insult(phrase[0].as_str(), phrase[1].as_str(), phrase[2].as_str())
}

/// Draws `count` phrases at random, each independently of the others, and
/// returns their insults in the order drawn. An empty phrase list gives no
/// insult at all.
pub fn random_insults(phrases: &PhraseList, count: u32) -> (lines: Vec<String>)
    ensures
        lines.len() == if phrases.len() == 0 {
            0
        } else {
            count as int
        },
        forall|k: int|
            0 <= k < lines.len() ==> is_insult_of(#[trigger] lines[k]@, phrases.deep_view()),
{
    let mut rng = rand::thread_rng();
    let mut lines: Vec<String> = Vec::new();
    let mut drawn: u32 = 0;
    while drawn < count
        invariant
            drawn <= count,
            lines.len() == if phrases.len() == 0 {
                0
            } else {
                drawn as int
            },
            forall|k: int|
                0 <= k < lines.len() ==> is_insult_of(#[trigger] lines[k]@, phrases.deep_view()),
        decreases count - drawn,
    {
        match pick_phrase(phrases, &mut rng) {
            Some(phrase) => {
                let text = insult_for(phrase);
                proof {
                    let i = choose|i: int| 0 <= i < phrases.len() && phrases[i] == *phrase;
                    assert(phrases.deep_view()[i] == phrase.deep_view());
                }
                lines.push(text);
            },
            None => {},
        }
        drawn += 1;
    }
    lines
}

/// The place of the combination of phrases `i`, `j` and `k` in the
/// enumeration, and how the three are read back from it.
pub proof fn lemma_combination_index(n: int, i: int, j: int, k: int)
    requires
        0 <= i < n,
        0 <= j < n,
        0 <= k < n,
    ensures
        0 <= i * n * n + j * n + k < n * n * n,
        (i * n * n + j * n + k) / (n * n) == i,
        ((i * n * n + j * n + k) / n) % n == j,
        (i * n * n + j * n + k) % n == k,
{
    let index = i * n * n + j * n + k;
    let row = i * n + j;
    assert(index == row * n + k && index == i * (n * n) + (j * n + k)) by (nonlinear_arith)
        requires
            index == i * n * n + j * n + k,
            row == i * n + j,
    ;
    assert(0 <= j * n + k < n * n && 0 <= index < n * n * n) by (nonlinear_arith)
        requires
            0 <= i < n,
            0 <= j < n,
            0 <= k < n,
            index == i * n * n + j * n + k,
    ;
    lemma_fundamental_div_mod_converse(index, n, row, k);
    lemma_fundamental_div_mod_converse(row, n, i, j);
    lemma_fundamental_div_mod_converse(index, n * n, i, j * n + k);
}

/// The number of insults that `n` phrases combine to, if a `usize` can hold it.
pub fn checked_combination_count(n: usize) -> (count: Option<usize>)
    ensures
        count == if combination_count(n as nat) <= usize::MAX {
            Some(combination_count(n as nat) as usize)
        } else {
            None
        },
{
    match n.checked_mul(n) {
        Some(square) => square.checked_mul(n),
        None => {
            assert(combination_count(n as nat) > usize::MAX) by (nonlinear_arith)
                requires
                    n * n > usize::MAX,
                    combination_count(n as nat) == n * n * n,
            ;
            None
        },
    }
}

/// Enumerates every combination of a first adjective, a second adjective and
/// a noun of `phrases`, numbered from zero. The three are taken from the
/// phrases independently of each other; the noun's phrase changes fastest and
/// the first adjective's slowest.
pub fn all_insults(phrases: &PhraseList) -> (insults: Vec<Insult>)
    requires
        combination_count(phrases.len() as nat) <= usize::MAX,
    ensures
        insults.deep_view() == all_combinations(phrases.deep_view()),
        insults.len() == combination_count(phrases.len() as nat),
        forall|index: int|
            0 <= index < insults.len() ==> (#[trigger] insults[index]).id == index
                && insults[index].insult@ == combination(phrases.deep_view(), index).1,
{
    let n = phrases.len();
    let ghost model = phrases.deep_view();
    let mut insults: Vec<Insult> = Vec::new();
    let mut id: usize = 0;
    let mut i: usize = 0;
    while i < n
        invariant
            n == phrases.len(),
            model == phrases.deep_view(),
            combination_count(n as nat) <= usize::MAX,
            i <= n,
            id == i * n * n,
            insults.len() == id,
            forall|index: int|
                0 <= index < id ==> (#[trigger] insults[index]).deep_view() == combination(
                    model,
                    index,
                ),
        decreases n - i,
    {
        let mut j: usize = 0;
        while j < n
            invariant
                n == phrases.len(),
                model == phrases.deep_view(),
                combination_count(n as nat) <= usize::MAX,
                i < n,
                j <= n,
                id == i * n * n + j * n,
                insults.len() == id,
                forall|index: int|
                    0 <= index < id ==> (#[trigger] insults[index]).deep_view() == combination(
                        model,
                        index,
                    ),
            decreases n - j,
        {
            let mut k: usize = 0;
            while k < n
                invariant
                    n == phrases.len(),
                    model == phrases.deep_view(),
                    combination_count(n as nat) <= usize::MAX,
                    i < n,
                    j < n,
                    k <= n,
                    id == i * n * n + j * n + k,
                    insults.len() == id,
                    forall|index: int|
                        0 <= index < id ==> (#[trigger] insults[index]).deep_view() == combination(
                            model,
                            index,
                        ),
                decreases n - k,
            {
                proof {
                    lemma_combination_index(n as int, i as int, j as int, k as int);
                }
                let text = format_insult(
                    phrases[i][0].as_str(),
                    phrases[j][1].as_str(),
                    phrases[k][2].as_str(),
                );
                insults.push(Insult { id, insult: text });
                id += 1;
                k += 1;
            }
            assert(i * n * n + j * n + n == i * n * n + (j + 1) * n) by (nonlinear_arith);
            j += 1;
        }
        assert(i * n * n + n * n == (i + 1) * n * n) by (nonlinear_arith);
        i += 1;
    }
    assert(id == combination_count(n as nat)) by (nonlinear_arith)
        requires
            id == i * n * n,
            i == n,
            combination_count(n as nat) == n * n * n,
    ;
    insults
}

/// The order of the enumeration. `n` phrases give `n³` insults, each numbered
/// with its own place, counted from zero. The insult with the first adjective
/// of phrase `i`, the second adjective of phrase `j` and the noun of phrase `k`
/// stands at place `i·n² + j·n + k`, so the insults are ordered by `i`, then
/// by `j`, then by `k`.
pub proof fn lemma_enumeration_order(phrases: Seq<Seq<Seq<char>>>, i: int, j: int, k: int)
    requires
        0 <= i < phrases.len(),
        0 <= j < phrases.len(),
        0 <= k < phrases.len(),
    ensures
        all_combinations(phrases).len() == phrases.len() * phrases.len() * phrases.len(),
        forall|index: int|
            0 <= index < all_combinations(phrases).len() ==> (#[trigger] all_combinations(
                phrases,
            )[index]).0 == index,
        ({
            let n = phrases.len() as int;
            let index = i * n * n + j * n + k;
            &&& 0 <= index < all_combinations(phrases).len()
            &&& all_combinations(phrases)[index] == (
                index as nat,
                insult_text(phrases[i][0], phrases[j][1], phrases[k][2]),
            )
        }),
{
    lemma_combination_index(phrases.len() as int, i, j, k);
}

/// Of two combinations, the one that comes first by its first adjective's
/// phrase, then by its second adjective's, then by its noun's, has the lower
/// place in the enumeration.
pub proof fn lemma_enumeration_is_lexicographic(
    n: int,
    i1: int,
    j1: int,
    k1: int,
    i2: int,
    j2: int,
    k2: int,
)
    requires
        0 <= i1 < n,
        0 <= j1 < n,
        0 <= k1 < n,
        0 <= i2 < n,
        0 <= j2 < n,
        0 <= k2 < n,
        i1 < i2 || (i1 == i2 && (j1 < j2 || (j1 == j2 && k1 < k2))),
    ensures
        i1 * n * n + j1 * n + k1 < i2 * n * n + j2 * n + k2,
{
    assert(i1 * n * n + j1 * n + k1 < i2 * n * n + j2 * n + k2) by (nonlinear_arith)
        requires
            0 <= i1 < n,
            0 <= j1 < n,
            0 <= k1 < n,
            0 <= i2 < n,
            0 <= j2 < n,
            0 <= k2 < n,
            i1 < i2 || (i1 == i2 && (j1 < j2 || (j1 == j2 && k1 < k2))),
    ;
}

} // verus!

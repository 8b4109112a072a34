//! Globe identifiers: normalising one supplied by a client, and minting a
//! new one.
//!
//! A globe id is ten lower-case characters: consonant, vowel, consonant,
//! vowel, two digits, then consonant, vowel, consonant, vowel.

use vstd::prelude::*;
use rand::Rng;
use rand::seq::SliceRandom;
use crate::errors::MyError;
use crate::text::digit_char;
use crate::validation::pattern_matches;
use vstd::string::StringExecFns;

verus! {

/// Longest accepted globe id, in characters.
pub const MAX_GLOBE_ID_LEN: usize = 12;

/// The accepted globe id format.
pub const GLOBE_ID_PATTERN: &'static str =
    "^[bcdfghjklmnpqrstvwxyz][aeiou][bcdfghjklmnpqrstvwxyz][aeiou][0-9]{2}[bcdfghjklmnpqrstvwxyz][aeiou][bcdfghjklmnpqrstvwxyz][aeiou]$";

/// `s` in lower case.
pub uninterp spec fn lower_of(s: Seq<char>) -> Seq<char>;

/// Relies on `str::to_lowercase`: the result depends on the characters of
/// `s` alone.
#[verifier::external_body]
fn lowercase(s: &str) -> (r: String)
    ensures
        r@ == lower_of(s@),
{
    s.to_lowercase()
}

pub open spec fn too_long_text() -> Seq<char> {
    "globe_id should not be longer than 12 characters"@
}

pub open spec fn invalid_text() -> Seq<char> {
    "globe_id is not valid."@
}

/// Judges an already lower-cased globe id, `fits_pattern` telling whether
/// it has the accepted format: too long, not valid, or accepted as it is.
pub fn judge_globe_id(lowered: String, fits_pattern: bool) -> (r: Result<String, MyError>)
    ensures
        lowered@.len() > MAX_GLOBE_ID_LEN ==> (r matches Err(e) && e.is_validation(too_long_text())),
        lowered@.len() <= MAX_GLOBE_ID_LEN && !fits_pattern ==> (r matches Err(e) && e.is_validation(
            invalid_text(),
        )),
        lowered@.len() <= MAX_GLOBE_ID_LEN && fits_pattern ==> r == Ok::<String, MyError>(lowered),
{
    if lowered.as_str().unicode_len() > MAX_GLOBE_ID_LEN {
        return Err(
            MyError::ValidationError(
                String::from_str("globe_id should not be longer than 12 characters"),
            ),
        );
    }
    if !fits_pattern {
        return Err(MyError::ValidationError(String::from_str("globe_id is not valid.")));
    }
    Ok(lowered)
}

/// Normalises a globe id supplied by a client: lower-cases it, then judges
/// it as `judge_globe_id` does.
pub fn process_globe_id(globe_id: &str) -> (r: Result<String, MyError>)
    ensures
        ({
            let l = lower_of(globe_id@);
            &&& l.len() > MAX_GLOBE_ID_LEN ==> (r matches Err(e) && e.is_validation(too_long_text()))
            &&& l.len() <= MAX_GLOBE_ID_LEN && !globe_id_shape(l) ==> (r matches Err(e)
                && e.is_validation(invalid_text()))
            &&& l.len() <= MAX_GLOBE_ID_LEN && globe_id_shape(l) ==> (r matches Ok(s) && s@ == l)
            &&& r matches Ok(s) ==> globe_id_shape(s@)
        }),
{
    let lowered = lowercase(globe_id);
    let fits = pattern_matches(GLOBE_ID_PATTERN, lowered.as_str());
    judge_globe_id(lowered, fits)
}

pub open spec fn is_vowel(c: char) -> bool {
    c == 'a' || c == 'e' || c == 'i' || c == 'o' || c == 'u'
}

pub open spec fn is_consonant(c: char) -> bool {
    c == 'b' || c == 'c' || c == 'd' || c == 'f' || c == 'g' || c == 'h' || c == 'j' || c == 'k'
        || c == 'l' || c == 'm' || c == 'n' || c == 'p' || c == 'q' || c == 'r' || c == 's' || c
        == 't' || c == 'v' || c == 'w' || c == 'x' || c == 'y' || c == 'z'
}

pub open spec fn is_digit(c: char) -> bool {
    exists|d: int| 0 <= d < 10 && c == #[trigger] digit_char(d)
}

/// `s` is a pronounceable word followed by two digits and another word.
pub open spec fn globe_id_shape(s: Seq<char>) -> bool {
    &&& s.len() == 10
    &&& is_consonant(s[0]) && is_vowel(s[1]) && is_consonant(s[2]) && is_vowel(s[3])
    &&& is_digit(s[4]) && is_digit(s[5])
    &&& is_consonant(s[6]) && is_vowel(s[7]) && is_consonant(s[8]) && is_vowel(s[9])
}

/// Relies on `rand::seq::SliceRandom::choose` with the thread's generator,
/// which returns some element of a non-empty slice and none of an empty one.
#[verifier::external_body]
fn choose_letter(letters: &[char]) -> (r: Option<char>)
    ensures
        letters@.len() > 0 ==> r is Some,
        r matches Some(c) ==> letters@.contains(c),
{
    letters.choose(&mut rand::thread_rng()).copied()
}

/// Relies on `rand::Rng::gen_range` with the thread's generator, which
/// returns a value of the range and panics on an empty one.
#[verifier::external_body]
fn draw_below(n: u8) -> (r: u8)
    requires
        n > 0,
    ensures
        r < n,
{
    rand::thread_rng().gen_range(0..n)
}

/// An accepted globe id holds no `-`, so no separator `--` can enter a
/// log key through it.
pub proof fn lemma_globe_id_has_no_dash(s: Seq<char>, i: int)
    requires
        globe_id_shape(s),
        0 <= i < s.len(),
    ensures
        s[i] != '-',
{
    if i == 4 || i == 5 {
        let d = choose|d: int| 0 <= d < 10 && s[i] == #[trigger] digit_char(d);
    }
}

/// A random four-letter word: consonant, vowel, consonant, vowel.
pub fn generate_word(vowels: &[char], consonants: &[char]) -> (r: String)
    requires
        vowels@.len() > 0,
        consonants@.len() > 0,
    ensures
        r@.len() == 4,
        forall|i: int| 0 <= i < 4 && i % 2 == 0 ==> consonants@.contains(#[trigger] r@[i]),
        forall|i: int| 0 <= i < 4 && i % 2 == 1 ==> vowels@.contains(#[trigger] r@[i]),
{
    let mut word = String::new();
    let mut i: usize = 0;
    while i < 4
        invariant
            i <= 4,
            vowels@.len() > 0,
            consonants@.len() > 0,
            word@.len() == i,
            forall|k: int| 0 <= k < i && k % 2 == 0 ==> consonants@.contains(#[trigger] word@[k]),
            forall|k: int| 0 <= k < i && k % 2 == 1 ==> vowels@.contains(#[trigger] word@[k]),
        decreases 4 - i,
    {
        let letters = if i % 2 == 0 {
            consonants
        } else {
            vowels
        };
        let letter = match choose_letter(letters) {
            Some(c) => c,
            None => {
                return word;
            },
        };
        word.push(letter);
        i = i + 1;
    }
    word
}

fn digit_letter(d: u8) -> (c: char)
    requires
        d < 10,
    ensures
        c == digit_char(d as int),
{
    crate::text::digit_to_char(d as u64)
}

/// The globe id made of `word1`, the digits `d1` and `d2`, and `word2`.
pub fn compose_globe_id(word1: String, d1: u8, d2: u8, word2: &str) -> (r: String)
    requires
        d1 < 10,
        d2 < 10,
    ensures
        r@ == word1@ + seq![digit_char(d1 as int), digit_char(d2 as int)] + word2@,
{
    let mut id = word1;
    id.push(digit_letter(d1));
    id.push(digit_letter(d2));
    id.append(word2);
    assert(id@ =~= word1@ + seq![digit_char(d1 as int), digit_char(d2 as int)] + word2@);
    id
}

/// A random globe id: a word, two digits and a word.
pub fn generate_globe_id() -> (r: String)
    ensures
        globe_id_shape(r@),
{
    let vowels = vec!['a', 'e', 'i', 'o', 'u'];
    let consonants = vec![
        'b', 'c', 'd', 'f', 'g', 'h', 'j', 'k', 'l', 'm', 'n', 'p', 'q', 'r', 's', 't', 'v', 'w',
        'x', 'y', 'z',
    ];
    assert(forall|c: char| vowels@.contains(c) ==> is_vowel(c));
    assert(forall|c: char| consonants@.contains(c) ==> is_consonant(c));
    let word1 = generate_word(vowels.as_slice(), consonants.as_slice());
    let word2 = generate_word(vowels.as_slice(), consonants.as_slice());
    let d1 = draw_below(10);
    let d2 = draw_below(10);
    let id = compose_globe_id(word1, d1, d2, word2.as_str());
    assert(is_digit(id@[4]) && is_digit(id@[5]));
    assert(consonants@.contains(word2@[0]) && consonants@.contains(word2@[2]));
    assert(vowels@.contains(word2@[1]) && vowels@.contains(word2@[3]));
    id
}

} // verus!

//! Sentence boundary oracle: decides, from one unit of text and the unit
//! that follows it (never anything further), whether a sentence ends there.
//! The word-level rule looks at terminal punctuation, a fixed abbreviation
//! list, and a lowercase continuation; the token-level rule looks at a fixed
//! set of terminal punctuation tokens and treats a run of them as a single
//! boundary.

use vstd::prelude::*;
use crate::text::str_eq;
use crate::text::first_char;
use crate::text::last_char;

verus! {

/// Titles that end in a period without ending a sentence. The match is
/// exact in case and punctuation.
pub open spec fn spec_is_abbreviation(w: Seq<char>) -> bool {
    w == "Mr."@ || w == "Mrs."@ || w == "Ms."@ || w == "Dr."@ || w == "Prof."@ || w == "Sr."@ || w
        == "St."@ || w == "Rev."@
}

/// Characters that may end a sentence.
pub open spec fn spec_terminal_char(c: char) -> bool {
    c == '.' || c == '?' || c == '!'
}

/// ASCII lowercase letters.
pub open spec fn spec_ascii_lowercase(c: char) -> bool {
    'a' as u32 <= c as u32 && c as u32 <= 'z' as u32
}

/// Word-level boundary rule: a word ends a sentence when it ends in `.`,
/// `?` or `!`, is not a known abbreviation, and the following word (if
/// there is one) does not start with a lowercase letter. The absence of a
/// following word does not by itself prevent a boundary.
pub open spec fn spec_is_word_sentence_end(w: Seq<char>, next: Option<Seq<char>>) -> bool {
    if spec_is_abbreviation(w) {
        false
    } else if w.len() > 0 && spec_terminal_char(w[w.len() - 1]) {
        !(match next {
            Some(nx) => nx.len() > 0 && spec_ascii_lowercase(nx[0]),
            None => false,
        })
    } else {
        false
    }
}

/// Tokens that stand for terminal punctuation: the single marks and their
/// doubled combinations.
pub open spec fn spec_terminal_token(t: Seq<char>) -> bool {
    t == "."@ || t == "?"@ || t == "!"@ || t == ".."@ || t == "??"@ || t == "!!"@ || t == "?!"@ || t
        == "!?"@
}

/// Token-level boundary rule: a terminal-punctuation token ends a sentence
/// unless the immediately following token is also terminal punctuation, so
/// a run of terminal marks is one boundary, decided at its last mark.
pub open spec fn spec_is_token_sentence_end(t: Seq<char>, next: Option<Seq<char>>) -> bool {
    spec_terminal_token(t) && !(match next {
        Some(nx) => spec_terminal_token(nx),
        None => false,
    })
}

/// Whether `word` is in the fixed abbreviation list.
pub fn is_abbreviation(word: &str) -> (r: bool)
    ensures
        r == spec_is_abbreviation(word@),
{
    str_eq(word, "Mr.") || str_eq(word, "Mrs.") || str_eq(word, "Ms.") || str_eq(word, "Dr.")
        || str_eq(word, "Prof.") || str_eq(word, "Sr.") || str_eq(word, "St.") || str_eq(
        word,
        "Rev.",
    )
}

/// Decides the word-level rule `spec_is_word_sentence_end` for `word`
/// followed by `next_word`.
pub fn is_word_sentence_end(word: &str, next_word: Option<&str>) -> (r: bool)
    ensures
        r == spec_is_word_sentence_end(word@, next_word.deep_view()),
{
    if is_abbreviation(word) {
        return false;
    }
    match last_char(word) {
        None => false,
        Some(c) => {
            if c == '.' || c == '?' || c == '!' {
                match next_word {
                    Some(next) => match first_char(next) {
                        Some(f) => {
                            let u = f as u32;
                            !(97 <= u && u <= 122)
                        },
                        None => true,
                    },
                    None => true,
                }
            } else {
                false
            }
        },
    }
}

/// Whether `token` is one of the fixed terminal punctuation tokens.
pub fn is_terminal_token(token: &str) -> (r: bool)
    ensures
        r == spec_terminal_token(token@),
{
    str_eq(token, ".") || str_eq(token, "?") || str_eq(token, "!") || str_eq(token, "..") || str_eq(
        token,
        "??",
    ) || str_eq(token, "!!") || str_eq(token, "?!") || str_eq(token, "!?")
}

/// Decides the token-level rule `spec_is_token_sentence_end` for `token`
/// followed by `next_token`.
pub fn is_token_sentence_end(token: &str, next_token: Option<&str>) -> (r: bool)
    ensures
        r == spec_is_token_sentence_end(token@, next_token.deep_view()),
{
    if !is_terminal_token(token) {
        return false;
    }
    match next_token {
        Some(nx) => !is_terminal_token(nx),
        None => true,
    }
}

} // verus!

//! The data the pipeline works on: recognizer tokens, assembled words and
//! sentences, and their mathematical models. All times are integer
//! milliseconds; a token's time is window-relative until seam deduplication
//! converts it to absolute recording time.

use vstd::prelude::*;

verus! {

/// Model of a token: its text and its time in milliseconds.
pub ghost struct TokenModel {
    pub text: Seq<char>,
    pub time_ms: int,
}

/// Model of a word: its text and the times of its first and last token.
pub ghost struct WordModel {
    pub text: Seq<char>,
    pub start_ms: int,
    pub end_ms: int,
}

/// Model of a sentence: its text and its absolute start and end times.
pub ghost struct SentenceModel {
    pub text: Seq<char>,
    pub start_ms: int,
    pub end_ms: int,
}

/// Smallest text unit returned by the recognizer, with its time.
pub struct Token {
    pub text: String,
    pub time_ms: u64,
}

/// A maximal run of tokens belonging to one word.
pub struct Word {
    pub text: String,
    pub start_ms: u64,
    pub end_ms: u64,
}

/// A completed sentence of the transcript.
pub struct Sentence {
    pub text: String,
    pub start_ms: u64,
    pub end_ms: u64,
}

impl View for Token {
    type V = TokenModel;

    open spec fn view(&self) -> TokenModel {
        TokenModel { text: self.text@, time_ms: self.time_ms as int }
    }
}

impl DeepView for Token {
    type V = TokenModel;

    open spec fn deep_view(&self) -> TokenModel {
        self.view()
    }
}

impl View for Word {
    type V = WordModel;

    open spec fn view(&self) -> WordModel {
        WordModel {
            text: self.text@,
            start_ms: self.start_ms as int,
            end_ms: self.end_ms as int,
        }
    }
}

impl DeepView for Word {
    type V = WordModel;

    open spec fn deep_view(&self) -> WordModel {
        self.view()
    }
}

impl View for Sentence {
    type V = SentenceModel;

    open spec fn view(&self) -> SentenceModel {
        SentenceModel {
            text: self.text@,
            start_ms: self.start_ms as int,
            end_ms: self.end_ms as int,
        }
    }
}

impl DeepView for Sentence {
    type V = SentenceModel;

    open spec fn deep_view(&self) -> SentenceModel {
        self.view()
    }
}

impl Clone for Token {
    /// A clone carries the same text and time.
    fn clone(&self) -> (r: Self)
        ensures
            r@ == self@,
    {
        Token { text: self.text.clone(), time_ms: self.time_ms }
    }
}

impl Clone for Word {
    /// A clone carries the same text and times.
    fn clone(&self) -> (r: Self)
        ensures
            r@ == self@,
    {
        Word { text: self.text.clone(), start_ms: self.start_ms, end_ms: self.end_ms }
    }
}

impl Clone for Sentence {
    /// A clone carries the same text and times.
    fn clone(&self) -> (r: Self)
        ensures
            r@ == self@,
    {
        Sentence { text: self.text.clone(), start_ms: self.start_ms, end_ms: self.end_ms }
    }
}

} // verus!

//! The per-job pipeline state: the word-level and token-level carry threaded
//! through the windows, one assembly round per window, and the final flush
//! that turns whatever carry is left into one last sentence. Also the small
//! derived values a job needs at its edges: the recording's duration and the
//! recognizer's thread count.

use vstd::prelude::*;
use crate::types::Token;
use crate::types::Word;
use crate::types::Sentence;
use crate::types::TokenModel;
use crate::types::WordModel;
use crate::types::SentenceModel;
use crate::text::spec_trim;
use crate::text::trim_spaces;
use crate::text::concat_texts;
use crate::text::join_space;
use crate::assemble::spec_extract_sentences;
use crate::assemble::extract_sentences;
use crate::assemble::word_texts;
use crate::assemble::join_words_text;
use crate::assemble::spec_words_of;
use crate::assemble::spec_word_carry;
use crate::assemble::spec_sentences_of;
use crate::assemble::spec_sentence_carry;
use crate::assemble::tokens_chronological;
use crate::assemble::words_chronological;
use crate::assemble::sentences_chronological;
use crate::assemble::lemma_words_of_ordered;
use crate::assemble::lemma_sentences_of_ordered;
use crate::seam::ms_of_samples;

verus! {

/// Model of the pipeline state between windows.
pub ghost struct PipelineModel {
    pub carry_words: Seq<WordModel>,
    pub carry_tokens: Seq<TokenModel>,
}

/// The unresolved suffix of the stream: words not yet closed into a
/// sentence and tokens not yet closed into a word. Created empty, updated
/// once per window, consumed by the final flush.
pub struct PipelineState {
    pub carry_words: Vec<Word>,
    pub carry_tokens: Vec<Token>,
}

impl View for PipelineState {
    type V = PipelineModel;

    open spec fn view(&self) -> PipelineModel {
        PipelineModel {
            carry_words: self.carry_words.deep_view(),
            carry_tokens: self.carry_tokens.deep_view(),
        }
    }
}

/// The texts of a run of tokens.
pub open spec fn token_texts(ts: Seq<TokenModel>) -> Seq<Seq<char>> {
    ts.map_values(|t: TokenModel| t.text)
}

/// The sentences completed by one window, and the state left behind: the
/// window's deduplicated tokens are appended to the token carry, grouped
/// into words behind the word carry, and scanned for sentence boundaries.
pub open spec fn spec_window_round(m: PipelineModel, ts: Seq<TokenModel>) -> (
    Seq<SentenceModel>,
    PipelineModel,
) {
    let r = spec_extract_sentences(m.carry_words, m.carry_tokens + ts);
    (r.0, PipelineModel { carry_words: r.1, carry_tokens: r.2 })
}

/// The words the final flush closes: any token carry is forced into one
/// trailing word (concatenated, trimmed, timed by its first and last token)
/// behind the word carry.
pub open spec fn spec_flush_words(m: PipelineModel) -> Seq<WordModel> {
    if m.carry_tokens.len() > 0 {
        m.carry_words.push(
            WordModel {
                text: spec_trim(concat_texts(token_texts(m.carry_tokens))),
                start_ms: m.carry_tokens[0].time_ms,
                end_ms: m.carry_tokens[m.carry_tokens.len() - 1].time_ms,
            },
        )
    } else {
        m.carry_words
    }
}

/// The final flush's sentence: all remaining words joined into one trailing
/// sentence, boundary or not, timed from the first word's start to the last
/// word's end; no sentence when nothing was carried.
pub open spec fn spec_flush_sentence(m: PipelineModel) -> Option<SentenceModel> {
    let ws = spec_flush_words(m);
    if ws.len() == 0 {
        None
    } else {
        Some(
            SentenceModel {
                text: join_space(word_texts(ws)),
                start_ms: ws[0].start_ms,
                end_ms: ws[ws.len() - 1].end_ms,
            },
        )
    }
}

/// A copy of a token run.
pub fn clone_tokens(ts: &Vec<Token>) -> (r: Vec<Token>)
    ensures
        r.deep_view() == ts.deep_view(),
{
    let mut r: Vec<Token> = Vec::new();
    let mut j: usize = 0;
    while j < ts.len()
        invariant
            j <= ts@.len(),
            r.deep_view() =~= ts.deep_view().subrange(0, j as int),
        decreases ts@.len() - j,
    {
        let ghost pre = r.deep_view();
        r.push(ts[j].clone());
        proof {
            assert(r.deep_view() =~= pre.push(ts.deep_view()[j as int]));
            assert(ts.deep_view().subrange(0, j + 1) =~= pre.push(ts.deep_view()[j as int]));
        }
        j += 1;
    }
    proof {
        assert(ts.deep_view().subrange(0, ts@.len() as int) =~= ts.deep_view());
    }
    r
}

/// The concatenation of the texts of `ts`, with nothing between them.
fn concat_token_texts(ts: &Vec<Token>) -> (r: String)
    ensures
        r@ == concat_texts(token_texts(ts.deep_view())),
{
    let ghost texts = token_texts(ts.deep_view());
    let mut s = String::new();
    let mut j: usize = 0;
    while j < ts.len()
        invariant
            texts == token_texts(ts.deep_view()),
            texts.len() == ts@.len(),
            j <= ts@.len(),
            s@ == concat_texts(texts.subrange(0, j as int)),
        decreases ts@.len() - j,
    {
        s.append(ts[j].text.as_str());
        proof {
            let pre = texts.subrange(0, j + 1);
            assert(pre.drop_last() =~= texts.subrange(0, j as int));
            assert(pre.last() == texts[j as int]);
        }
        j += 1;
    }
    proof {
        assert(texts.subrange(0, texts.len() as int) =~= texts);
    }
    s
}

impl PipelineState {
    /// A fresh job starts with both carries empty.
    pub fn new() -> (r: Self)
        ensures
            r@.carry_words == Seq::<WordModel>::empty(),
            r@.carry_tokens == Seq::<TokenModel>::empty(),
    {
        let r = PipelineState { carry_words: Vec::new(), carry_tokens: Vec::new() };
        proof {
            assert(r@.carry_words =~= Seq::<WordModel>::empty());
            assert(r@.carry_tokens =~= Seq::<TokenModel>::empty());
        }
        r
    }

    /// One window: consumes the carries and this window's deduplicated,
    /// absolute-time tokens, returns the sentences completed by them, and
    /// leaves the new carries behind for the next window.
    pub fn process_window_tokens(&mut self, window_tokens: &Vec<Token>) -> (r: Vec<Sentence>)
        ensures
            r.deep_view() == spec_window_round(old(self)@, window_tokens.deep_view()).0,
            final(self)@ == spec_window_round(old(self)@, window_tokens.deep_view()).1,
    {
        let mut combined = clone_tokens(&self.carry_tokens);
        let mut fresh = clone_tokens(window_tokens);
        let ghost combined_pre = combined.deep_view();
        let ghost fresh_view = fresh.deep_view();
        combined.append(&mut fresh);
        proof {
            assert(combined.deep_view() =~= combined_pre + fresh_view);
        }
        let (sentences, remaining_words, remaining_tokens) = extract_sentences(
            &self.carry_words,
            &combined,
        );
        self.carry_words = remaining_words;
        self.carry_tokens = remaining_tokens;
        sentences
    }

    /// The final flush, once the windows are exhausted: any token carry is
    /// forced into one trailing word, any remaining words into one trailing
    /// sentence — the only sentence that may lack terminal punctuation — and
    /// the carries are left empty.
    pub fn flush(&mut self) -> (r: Option<Sentence>)
        ensures
            r.deep_view() == spec_flush_sentence(old(self)@),
            final(self)@.carry_words.len() == 0,
            final(self)@.carry_tokens.len() == 0,
    {
        if self.carry_tokens.len() > 0 {
            let text = trim_spaces(concat_token_texts(&self.carry_tokens).as_str());
            let start_ms = self.carry_tokens[0].time_ms;
            let end_ms = self.carry_tokens[self.carry_tokens.len() - 1].time_ms;
            self.carry_words.push(Word { text, start_ms, end_ms });
            self.carry_tokens = Vec::new();
            proof {
                assert(self.carry_words.deep_view() =~= spec_flush_words(old(self)@));
            }
        }
        proof {
            assert(self.carry_words.deep_view() =~= spec_flush_words(old(self)@));
            assert(self.carry_tokens.deep_view() =~= Seq::<TokenModel>::empty());
        }
        if self.carry_words.len() == 0 {
            return None;
        }
        let text = join_words_text(&self.carry_words);
        let start_ms = self.carry_words[0].start_ms;
        let end_ms = self.carry_words[self.carry_words.len() - 1].end_ms;
        self.carry_words = Vec::new();
        Some(Sentence { text, start_ms, end_ms })
    }
}

/// The whole recording's duration in whole milliseconds, rounded toward
/// zero: the value carried by the job-start event.
pub fn total_duration_ms(samples_len: usize, sample_rate: u32) -> (r: u64)
    requires
        sample_rate > 0,
        samples_len * 1000 <= u64::MAX,
    ensures
        r == ms_of_samples(samples_len as int, sample_rate as int),
{
    ((samples_len as u64) * 1000) / (sample_rate as u64)
}

/// How many threads the recognizer may use on a machine with `cpus` logical
/// processors: half of them, but at least 1 and at most 6 — more inference
/// threads than that slow the engine down.
pub open spec fn spec_recognizer_threads(cpus: int) -> int {
    let half = cpus / 2;
    if half > 6 {
        6
    } else if half < 1 {
        1
    } else {
        half
    }
}

/// Decides `spec_recognizer_threads` for a machine with `cpus` processors.
pub fn recognizer_thread_count(cpus: usize) -> (r: usize)
    ensures
        r == spec_recognizer_threads(cpus as int),
        1 <= r <= 6,
{
    let half = cpus / 2;
    if half > 6 {
        6
    } else if half < 1 {
        1
    } else {
        half
    }
}

/// Internal orderliness of the carry state: both carries are chronological,
/// every carried word spans forward in time, and the carried words do not
/// start after the carried tokens.
pub open spec fn model_ordered(m: PipelineModel) -> bool {
    &&& words_chronological(m.carry_words)
    &&& forall|k: int|
        0 <= k < m.carry_words.len() ==> (#[trigger] m.carry_words[k]).start_ms
            <= m.carry_words[k].end_ms
    &&& tokens_chronological(m.carry_tokens)
    &&& (m.carry_words.len() > 0 && m.carry_tokens.len() > 0 ==> m.carry_words.last().start_ms
        <= m.carry_tokens[0].time_ms)
}

/// Every time held in the carry state lies at or before `t`.
pub open spec fn model_bounded(m: PipelineModel, t: int) -> bool {
    &&& forall|k: int|
        0 <= k < m.carry_words.len() ==> (#[trigger] m.carry_words[k]).start_ms <= t
    &&& forall|k: int| 0 <= k < m.carry_tokens.len() ==> (#[trigger] m.carry_tokens[k]).time_ms <= t
}

/// Every token time lies at or before `t`.
pub open spec fn tokens_bounded(ts: Seq<TokenModel>, t: int) -> bool {
    forall|k: int| 0 <= k < ts.len() ==> (#[trigger] ts[k]).time_ms <= t
}

/// Every sentence start lies at or before `t`.
pub open spec fn sentences_start_bounded(ss: Seq<SentenceModel>, t: int) -> bool {
    forall|k: int| 0 <= k < ss.len() ==> (#[trigger] ss[k]).start_ms <= t
}

/// The earliest time entering a round: the first carried word's start, else
/// the first carried token's time, else the window's first token's time.
pub open spec fn first_input_start(m: PipelineModel, ts: Seq<TokenModel>) -> int {
    if m.carry_words.len() > 0 {
        m.carry_words[0].start_ms
    } else if m.carry_tokens.len() > 0 {
        m.carry_tokens[0].time_ms
    } else if ts.len() > 0 {
        ts[0].time_ms
    } else {
        0
    }
}

/// One round keeps an orderly state orderly: given a chronological window
/// whose tokens do not precede the carried state, the round's sentences are
/// chronological and span forward, the first of them (or, with none, the
/// first thing carried on) starts at the round's earliest input time, the
/// last of them does not start after anything carried on, and the new state
/// is orderly again.
pub proof fn lemma_window_round_ordered(m: PipelineModel, ts: Seq<TokenModel>)
    requires
        model_ordered(m),
        tokens_chronological(ts),
        ts.len() > 0 ==> model_bounded(m, ts[0].time_ms),
    ensures
        sentences_chronological(spec_window_round(m, ts).0),
        forall|k: int|
            0 <= k < spec_window_round(m, ts).0.len() ==> (#[trigger] spec_window_round(
                m,
                ts,
            ).0[k]).start_ms <= spec_window_round(m, ts).0[k].end_ms,
        model_ordered(spec_window_round(m, ts).1),
        spec_window_round(m, ts).0.len() > 0 ==> spec_window_round(m, ts).0[0].start_ms
            == first_input_start(m, ts),
        spec_window_round(m, ts).0.len() > 0 && spec_window_round(m, ts).1.carry_words.len() > 0
            ==> spec_window_round(m, ts).0.last().start_ms <= spec_window_round(
            m,
            ts,
        ).1.carry_words[0].start_ms,
        spec_window_round(m, ts).0.len() > 0 && spec_window_round(m, ts).1.carry_words.len() == 0
            && spec_window_round(m, ts).1.carry_tokens.len() > 0 ==> spec_window_round(
            m,
            ts,
        ).0.last().start_ms <= spec_window_round(m, ts).1.carry_tokens[0].time_ms,
        spec_window_round(m, ts).0.len() == 0 && spec_window_round(m, ts).1.carry_words.len() > 0
            ==> spec_window_round(m, ts).1.carry_words[0].start_ms == first_input_start(m, ts),
        spec_window_round(m, ts).0.len() == 0 && spec_window_round(m, ts).1.carry_words.len() == 0
            && spec_window_round(m, ts).1.carry_tokens.len() > 0 ==> first_input_start(m, ts)
            <= spec_window_round(m, ts).1.carry_tokens[0].time_ms,
{
    let all = m.carry_tokens + ts;
    assert forall|i: int, j: int| 0 <= i <= j < all.len() implies (#[trigger] all[i]).time_ms <= (
    #[trigger] all[j]).time_ms by {
        let c = m.carry_tokens.len();
        if j < c {
            assert(all[i] == m.carry_tokens[i] && all[j] == m.carry_tokens[j]);
        } else if i >= c {
            assert(all[i] == ts[i - c] && all[j] == ts[j - c]);
        } else {
            assert(all[i] == m.carry_tokens[i] && all[j] == ts[j - c]);
            assert(m.carry_tokens[i].time_ms <= ts[0].time_ms);
            assert(ts[0].time_ms <= ts[j - c].time_ms);
        }
    }
    lemma_words_of_ordered(all);
    let nw = spec_words_of(all);
    let combined = m.carry_words + nw;
    let cwn = m.carry_words.len() as int;
    assert(nw.len() > 0 ==> nw[0].start_ms == all[0].time_ms);
    if m.carry_words.len() > 0 && nw.len() > 0 {
        assert(m.carry_words.last().start_ms <= nw[0].start_ms) by {
            if m.carry_tokens.len() > 0 {
                assert(all[0] == m.carry_tokens[0]);
            } else {
                assert(all[0] == ts[0]);
            }
        }
    }
    assert forall|i: int, j: int| 0 <= i <= j < combined.len() implies (
    #[trigger] combined[i]).start_ms <= (#[trigger] combined[j]).start_ms by {
        if j < cwn {
            assert(combined[i] == m.carry_words[i] && combined[j] == m.carry_words[j]);
        } else if i >= cwn {
            assert(combined[i] == nw[i - cwn] && combined[j] == nw[j - cwn]);
        } else {
            assert(combined[i] == m.carry_words[i] && combined[j] == nw[j - cwn]);
            assert(m.carry_words[i].start_ms <= m.carry_words.last().start_ms);
            assert(nw[0].start_ms <= nw[j - cwn].start_ms);
        }
    }
    assert forall|k: int| 0 <= k < combined.len() implies (#[trigger] combined[k]).start_ms
        <= combined[k].end_ms by {
        if k < cwn {
            assert(combined[k] == m.carry_words[k]);
        } else {
            assert(combined[k] == nw[k - cwn]);
        }
    }
    lemma_sentences_of_ordered(combined);
    let ss = spec_sentences_of(combined);
    let cw2 = spec_sentence_carry(combined);
    let ct2 = spec_word_carry(all);
    assert(spec_window_round(m, ts).0 == ss);
    assert(spec_window_round(m, ts).1.carry_words == cw2);
    assert(spec_window_round(m, ts).1.carry_tokens == ct2);

    // The first thing the round produces starts at the earliest input time.
    if combined.len() > 0 {
        assert(combined[0].start_ms == first_input_start(m, ts)) by {
            if m.carry_words.len() > 0 {
                assert(combined[0] == m.carry_words[0]);
            } else {
                assert(combined[0] == nw[0]);
                if m.carry_tokens.len() > 0 {
                    assert(all[0] == m.carry_tokens[0]);
                } else {
                    assert(all[0] == ts[0]);
                }
            }
        }
    }

    // The new state is orderly.
    assert(words_chronological(cw2) && forall|k: int|
        0 <= k < cw2.len() ==> (#[trigger] cw2[k]).start_ms <= cw2[k].end_ms) by {
        assert forall|i: int, j: int| 0 <= i <= j < cw2.len() implies (#[trigger] cw2[i]).start_ms
            <= (#[trigger] cw2[j]).start_ms by {
            let base = combined.len() - cw2.len();
            assert(cw2[i] == combined[base + i] && cw2[j] == combined[base + j]);
        }
        assert forall|k: int| 0 <= k < cw2.len() implies (#[trigger] cw2[k]).start_ms
            <= cw2[k].end_ms by {
            let base = combined.len() - cw2.len();
            assert(cw2[k] == combined[base + k]);
        }
    }
    if cw2.len() > 0 && ct2.len() > 0 {
        assert(cw2.last() == combined.last());
        assert(combined.last().start_ms <= ct2[0].time_ms) by {
            if nw.len() > 0 {
                assert(combined.last() == nw.last());
            } else {
                assert(ct2 == all);
                assert(combined.last() == m.carry_words.last());
                if m.carry_tokens.len() > 0 {
                    assert(all[0] == m.carry_tokens[0]);
                } else {
                    assert(all[0] == ts[0]);
                }
            }
        }
    }

    // Links from the sentences to what is carried on.
    if ss.len() > 0 && cw2.len() == 0 && ct2.len() > 0 {
        assert(ss.last().start_ms <= ct2[0].time_ms) by {
            assert(combined.len() > 0);
            assert(ss.last().start_ms <= combined.last().start_ms);
            if nw.len() > 0 {
                assert(combined.last() == nw.last());
            } else {
                assert(ct2 == all);
                assert(combined.last() == m.carry_words.last());
                if m.carry_tokens.len() > 0 {
                    assert(all[0] == m.carry_tokens[0]);
                } else {
                    assert(all[0] == ts[0]);
                }
            }
        }
    }
    if ss.len() == 0 && cw2.len() == 0 && ct2.len() > 0 {
        assert(cw2 == combined);
        assert(combined.len() == 0);
        assert(nw.len() == 0 && m.carry_words.len() == 0);
        assert(ct2 == all);
        assert(first_input_start(m, ts) <= ct2[0].time_ms) by {
            if m.carry_tokens.len() > 0 {
                assert(all[0] == m.carry_tokens[0]);
            } else {
                assert(all[0] == ts[0]);
            }
        }
    }
    if ss.len() == 0 && cw2.len() > 0 {
        assert(cw2 == combined);
        assert(cw2[0] == combined[0]);
    }
}

/// One round keeps every carried time and every produced sentence start at
/// or before any bound that the incoming state and window respect.
pub proof fn lemma_window_round_bounded(m: PipelineModel, ts: Seq<TokenModel>, t: int)
    requires
        model_ordered(m),
        tokens_chronological(ts),
        ts.len() > 0 ==> model_bounded(m, ts[0].time_ms),
        model_bounded(m, t),
        tokens_bounded(ts, t),
    ensures
        model_bounded(spec_window_round(m, ts).1, t),
        sentences_start_bounded(spec_window_round(m, ts).0, t),
        spec_window_round(m, ts).0.len() > 0 ==> spec_window_round(m, ts).0.last().start_ms <= t,
{
    let all = m.carry_tokens + ts;
    assert forall|k: int| 0 <= k < all.len() implies (#[trigger] all[k]).time_ms <= t by {
        let c = m.carry_tokens.len();
        if k < c {
            assert(all[k] == m.carry_tokens[k]);
        } else {
            assert(all[k] == ts[k - c]);
        }
    }
    assert forall|i: int, j: int| 0 <= i <= j < all.len() implies (#[trigger] all[i]).time_ms <= (
    #[trigger] all[j]).time_ms by {
        let c = m.carry_tokens.len();
        if j < c {
            assert(all[i] == m.carry_tokens[i] && all[j] == m.carry_tokens[j]);
        } else if i >= c {
            assert(all[i] == ts[i - c] && all[j] == ts[j - c]);
        } else {
            assert(all[i] == m.carry_tokens[i] && all[j] == ts[j - c]);
            assert(m.carry_tokens[i].time_ms <= ts[0].time_ms);
            assert(ts[0].time_ms <= ts[j - c].time_ms);
        }
    }
    lemma_words_of_ordered(all);
    let nw = spec_words_of(all);
    let combined = m.carry_words + nw;
    let cwn = m.carry_words.len() as int;
    assert forall|k: int| 0 <= k < combined.len() implies (#[trigger] combined[k]).start_ms
        <= t by {
        if k < cwn {
            assert(combined[k] == m.carry_words[k]);
        } else {
            assert(combined[k] == nw[k - cwn]);
            assert(all.len() > 0);
            assert(nw[k - cwn].start_ms <= all.last().time_ms);
        }
    }
    if m.carry_words.len() > 0 && nw.len() > 0 {
        assert(m.carry_words.last().start_ms <= nw[0].start_ms) by {
            assert(nw[0].start_ms == all[0].time_ms);
            if m.carry_tokens.len() > 0 {
                assert(all[0] == m.carry_tokens[0]);
            } else {
                assert(all[0] == ts[0]);
            }
        }
    }
    assert forall|i: int, j: int| 0 <= i <= j < combined.len() implies (
    #[trigger] combined[i]).start_ms <= (#[trigger] combined[j]).start_ms by {
        if j < cwn {
            assert(combined[i] == m.carry_words[i] && combined[j] == m.carry_words[j]);
        } else if i >= cwn {
            assert(combined[i] == nw[i - cwn] && combined[j] == nw[j - cwn]);
        } else {
            assert(combined[i] == m.carry_words[i] && combined[j] == nw[j - cwn]);
            assert(m.carry_words[i].start_ms <= m.carry_words.last().start_ms);
            assert(nw[0].start_ms <= nw[j - cwn].start_ms);
        }
    }
    assert forall|k: int| 0 <= k < combined.len() implies (#[trigger] combined[k]).start_ms
        <= combined[k].end_ms by {
        if k < cwn {
            assert(combined[k] == m.carry_words[k]);
        } else {
            assert(combined[k] == nw[k - cwn]);
        }
    }
    lemma_sentences_of_ordered(combined);
    let ss = spec_sentences_of(combined);
    let cw2 = spec_sentence_carry(combined);
    let ct2 = spec_word_carry(all);
    assert forall|k: int| 0 <= k < cw2.len() implies (#[trigger] cw2[k]).start_ms <= t by {
        let base = combined.len() - cw2.len();
        assert(base >= 0);
        assert(cw2[k] == combined[base + k]);
    }
    assert forall|k: int| 0 <= k < ct2.len() implies (#[trigger] ct2[k]).time_ms <= t by {
        assert(ct2[k].time_ms <= all.last().time_ms);
        assert(all.last().time_ms <= t);
    }
    assert forall|k: int| 0 <= k < ss.len() implies (#[trigger] ss[k]).start_ms <= t by {
        assert(combined.len() > 0);
        assert(ss[k].start_ms <= combined.last().start_ms);
        assert(combined.last().start_ms <= t);
    }
    if ss.len() > 0 {
        assert(ss.last().start_ms <= t);
    }
}

/// The sentences of a whole pre-recognized run: each window's deduplicated
/// tokens feed one assembly round, and the final flush ends the stream.
pub open spec fn spec_transcript_at(wins: Seq<Seq<TokenModel>>, n: int) -> (
    Seq<SentenceModel>,
    PipelineModel,
)
    decreases n,
{
    if n <= 0 {
        (Seq::empty(), PipelineModel { carry_words: Seq::empty(), carry_tokens: Seq::empty() })
    } else {
        let prev = spec_transcript_at(wins, n - 1);
        let round = spec_window_round(prev.1, wins[n - 1]);
        (prev.0 + round.0, round.1)
    }
}

/// The full transcript of a run: all sentences in emission order, the final
/// flush's sentence included.
pub open spec fn spec_transcript(wins: Seq<Seq<TokenModel>>) -> Seq<SentenceModel> {
    let done = spec_transcript_at(wins, wins.len() as int);
    match spec_flush_sentence(done.1) {
        Some(s) => done.0.push(s),
        None => done.0,
    }
}

/// A run's input is orderly: each window's deduplicated tokens are
/// chronological, and no token of a later window precedes a token of an
/// earlier one. Seam deduplication of a chronologically recognized
/// recording yields exactly this (see `crate::seam`).
pub open spec fn run_chronological(wins: Seq<Seq<TokenModel>>) -> bool {
    &&& forall|w: int| 0 <= w < wins.len() ==> tokens_chronological(#[trigger] wins[w])
    &&& forall|a: int, b: int, i: int, j: int|
        0 <= a < b < wins.len() && 0 <= i < wins[a].len() && 0 <= j < wins[b].len() ==> (
        #[trigger] wins[a][i]).time_ms <= (#[trigger] wins[b][j]).time_ms
}

/// After any number of windows of an orderly run: the emitted sentences
/// are chronological and span forward, the carry state is orderly, nothing
/// emitted starts after what is carried, and every time seen so far lies
/// at or before every token of the windows still to come.
pub proof fn lemma_transcript_at_ordered(wins: Seq<Seq<TokenModel>>, n: int)
    requires
        run_chronological(wins),
        0 <= n <= wins.len(),
    ensures
        sentences_chronological(spec_transcript_at(wins, n).0),
        forall|k: int|
            0 <= k < spec_transcript_at(wins, n).0.len() ==> (#[trigger] spec_transcript_at(
                wins,
                n,
            ).0[k]).start_ms <= spec_transcript_at(wins, n).0[k].end_ms,
        model_ordered(spec_transcript_at(wins, n).1),
        spec_transcript_at(wins, n).0.len() > 0 && spec_transcript_at(
            wins,
            n,
        ).1.carry_words.len() > 0 ==> spec_transcript_at(wins, n).0.last().start_ms
            <= spec_transcript_at(wins, n).1.carry_words[0].start_ms,
        spec_transcript_at(wins, n).0.len() > 0 && spec_transcript_at(
            wins,
            n,
        ).1.carry_words.len() == 0 && spec_transcript_at(wins, n).1.carry_tokens.len() > 0
            ==> spec_transcript_at(wins, n).0.last().start_ms <= spec_transcript_at(
            wins,
            n,
        ).1.carry_tokens[0].time_ms,
        forall|b: int, j: int|
            n <= b < wins.len() && 0 <= j < wins[b].len() ==> model_bounded(
                spec_transcript_at(wins, n).1,
                (#[trigger] wins[b][j]).time_ms,
            ) && sentences_start_bounded(spec_transcript_at(wins, n).0, wins[b][j].time_ms),
    decreases n,
{
    if n > 0 {
        lemma_transcript_at_ordered(wins, n - 1);
        let prev_ss = spec_transcript_at(wins, n - 1).0;
        let prev_m = spec_transcript_at(wins, n - 1).1;
        let ts = wins[n - 1];
        let round_ss = spec_window_round(prev_m, ts).0;
        let m2 = spec_window_round(prev_m, ts).1;
        let cur_ss = spec_transcript_at(wins, n).0;
        assert(cur_ss == prev_ss + round_ss);
        assert(spec_transcript_at(wins, n).1 == m2);
        assert(tokens_chronological(ts));
        if ts.len() > 0 {
            assert(model_bounded(prev_m, ts[0].time_ms) && sentences_start_bounded(
                prev_ss,
                ts[0].time_ms,
            ));
        }
        lemma_window_round_ordered(prev_m, ts);

        // A round with no input at all yields nothing and carries nothing.
        let deg = prev_m.carry_words.len() == 0 && prev_m.carry_tokens.len() == 0 && ts.len()
            == 0;
        assert(deg ==> round_ss.len() == 0 && m2.carry_words.len() == 0 && m2.carry_tokens.len()
            == 0) by {
            if deg {
                assert(prev_m.carry_tokens + ts =~= Seq::<TokenModel>::empty());
                assert(spec_words_of(Seq::<TokenModel>::empty()).len() == 0);
                assert(prev_m.carry_words + spec_words_of(Seq::<TokenModel>::empty()) =~= Seq::<
                    WordModel,
                >::empty());
                assert(spec_sentences_of(Seq::<WordModel>::empty()).len() == 0);
                assert(spec_sentence_carry(Seq::<WordModel>::empty()).len() == 0);
                assert(spec_word_carry(Seq::<TokenModel>::empty()).len() == 0);
            }
        }

        // Nothing already emitted starts after the round's earliest input.
        if prev_ss.len() > 0 && !deg {
            assert(prev_ss.last().start_ms <= first_input_start(prev_m, ts)) by {
                if prev_m.carry_words.len() > 0 {
                } else if prev_m.carry_tokens.len() > 0 {
                } else if ts.len() > 0 {
                    assert(sentences_start_bounded(prev_ss, ts[0].time_ms));
                }
            }
        }

        assert forall|i: int, j: int| 0 <= i <= j < cur_ss.len() implies (
        #[trigger] cur_ss[i]).start_ms <= (#[trigger] cur_ss[j]).start_ms by {
            let p = prev_ss.len() as int;
            if j < p {
                assert(cur_ss[i] == prev_ss[i] && cur_ss[j] == prev_ss[j]);
            } else if i >= p {
                assert(cur_ss[i] == round_ss[i - p] && cur_ss[j] == round_ss[j - p]);
            } else {
                assert(cur_ss[i] == prev_ss[i] && cur_ss[j] == round_ss[j - p]);
                assert(prev_ss[i].start_ms <= prev_ss.last().start_ms);
                assert(round_ss[0].start_ms <= round_ss[j - p].start_ms);
                assert(round_ss[0].start_ms == first_input_start(prev_m, ts));
            }
        }
        assert forall|k: int| 0 <= k < cur_ss.len() implies (#[trigger] cur_ss[k]).start_ms
            <= cur_ss[k].end_ms by {
            let p = prev_ss.len() as int;
            if k < p {
                assert(cur_ss[k] == prev_ss[k]);
            } else {
                assert(cur_ss[k] == round_ss[k - p]);
            }
        }

        // The last emitted sentence does not start after the new carry.
        if cur_ss.len() > 0 && m2.carry_words.len() > 0 {
            assert(cur_ss.last().start_ms <= m2.carry_words[0].start_ms) by {
                if round_ss.len() > 0 {
                    assert(cur_ss.last() == round_ss.last());
                } else {
                    assert(cur_ss.last() == prev_ss.last());
                    assert(m2.carry_words[0].start_ms == first_input_start(prev_m, ts));
                }
            }
        }
        if cur_ss.len() > 0 && m2.carry_words.len() == 0 && m2.carry_tokens.len() > 0 {
            assert(cur_ss.last().start_ms <= m2.carry_tokens[0].time_ms) by {
                if round_ss.len() > 0 {
                    assert(cur_ss.last() == round_ss.last());
                } else {
                    assert(cur_ss.last() == prev_ss.last());
                    assert(first_input_start(prev_m, ts) <= m2.carry_tokens[0].time_ms);
                }
            }
        }

        // Everything seen so far lies before the remaining windows.
        assert forall|b: int, j: int|
            n <= b < wins.len() && 0 <= j < wins[b].len() implies model_bounded(
                spec_transcript_at(wins, n).1,
                (#[trigger] wins[b][j]).time_ms,
            ) && sentences_start_bounded(spec_transcript_at(wins, n).0, wins[b][j].time_ms) by {
            let t = wins[b][j].time_ms;
            assert(model_bounded(prev_m, t) && sentences_start_bounded(prev_ss, t));
            assert forall|i: int| 0 <= i < ts.len() implies (#[trigger] ts[i]).time_ms <= t by {
                assert(wins[n - 1][i].time_ms <= wins[b][j].time_ms);
            }
            lemma_window_round_bounded(prev_m, ts, t);
            assert forall|k: int| 0 <= k < cur_ss.len() implies (#[trigger] cur_ss[k]).start_ms
                <= t by {
                let p = prev_ss.len() as int;
                if k < p {
                    assert(cur_ss[k] == prev_ss[k]);
                } else {
                    assert(cur_ss[k] == round_ss[k - p]);
                }
            }
        }
    }
}

/// Monotonic timestamps: over any orderly run, the emitted sentences —
/// the final flush included — have non-decreasing start times in emission
/// order, and no sentence ends before it starts.
pub proof fn lemma_transcript_monotonic(wins: Seq<Seq<TokenModel>>)
    requires
        run_chronological(wins),
    ensures
        sentences_chronological(spec_transcript(wins)),
        forall|k: int|
            0 <= k < spec_transcript(wins).len() ==> (#[trigger] spec_transcript(
                wins,
            )[k]).start_ms <= spec_transcript(wins)[k].end_ms,
{
    let n = wins.len() as int;
    lemma_transcript_at_ordered(wins, n);
    let done = spec_transcript_at(wins, n).0;
    let m = spec_transcript_at(wins, n).1;
    let out = spec_transcript(wins);
    match spec_flush_sentence(m) {
        None => {
            assert(out == done);
        },
        Some(s) => {
            let ws = spec_flush_words(m);
            assert(ws.len() > 0);
            // The flushed word run is orderly.
            assert(words_chronological(ws) && forall|k: int|
                0 <= k < ws.len() ==> (#[trigger] ws[k]).start_ms <= ws[k].end_ms) by {
                if m.carry_tokens.len() > 0 {
                    let wf = ws.last();
                    assert(wf.start_ms == m.carry_tokens[0].time_ms);
                    assert(wf.end_ms == m.carry_tokens[m.carry_tokens.len() - 1].time_ms);
                    assert(wf.start_ms <= wf.end_ms);
                    assert forall|i: int, j: int| 0 <= i <= j < ws.len() implies (
                    #[trigger] ws[i]).start_ms <= (#[trigger] ws[j]).start_ms by {
                        if j < ws.len() - 1 {
                            assert(ws[i] == m.carry_words[i] && ws[j] == m.carry_words[j]);
                        } else if i < j {
                            assert(ws[i] == m.carry_words[i]);
                            assert(m.carry_words[i].start_ms <= m.carry_words.last().start_ms);
                        }
                    }
                    assert forall|k: int| 0 <= k < ws.len() implies (#[trigger] ws[k]).start_ms
                        <= ws[k].end_ms by {
                        if k < ws.len() - 1 {
                            assert(ws[k] == m.carry_words[k]);
                        }
                    }
                } else {
                    assert(ws == m.carry_words);
                }
            }
            assert(s.start_ms == ws[0].start_ms && s.end_ms == ws[ws.len() - 1].end_ms);
            assert(ws[0].start_ms <= ws[ws.len() - 1].start_ms);
            assert(s.start_ms <= s.end_ms);
            // Nothing already emitted starts after the flushed sentence.
            if done.len() > 0 {
                assert(done.last().start_ms <= s.start_ms) by {
                    if m.carry_words.len() > 0 {
                        assert(ws[0] == m.carry_words[0]);
                    } else {
                        assert(m.carry_tokens.len() > 0);
                        assert(ws[0].start_ms == m.carry_tokens[0].time_ms);
                    }
                }
            }
            assert(out == done.push(s));
            assert forall|i: int, j: int| 0 <= i <= j < out.len() implies (
            #[trigger] out[i]).start_ms <= (#[trigger] out[j]).start_ms by {
                if j < out.len() - 1 {
                    assert(out[i] == done[i] && out[j] == done[j]);
                } else if i < j {
                    assert(out[i] == done[i]);
                    assert(done[i].start_ms <= done.last().start_ms);
                }
            }
            assert forall|k: int| 0 <= k < out.len() implies (#[trigger] out[k]).start_ms
                <= out[k].end_ms by {
                if k < out.len() - 1 {
                    assert(out[k] == done[k]);
                }
            }
        },
    }
}

/// Runs the assembly over every window's deduplicated tokens in order and
/// flushes: the sentences of the whole job, in emission order.
pub fn assemble_transcript(windows: &Vec<Vec<Token>>) -> (r: Vec<Sentence>)
    ensures
        r.deep_view() == spec_transcript(windows.deep_view()),
{
    let ghost wins = windows.deep_view();
    let mut state = PipelineState::new();
    let mut all: Vec<Sentence> = Vec::new();
    let mut i: usize = 0;
    proof {
        assert(all.deep_view() =~= spec_transcript_at(wins, 0).0);
        assert(state@ == spec_transcript_at(wins, 0).1);
    }
    while i < windows.len()
        invariant
            wins == windows.deep_view(),
            wins.len() == windows@.len(),
            i <= windows@.len(),
            all.deep_view() == spec_transcript_at(wins, i as int).0,
            state@ == spec_transcript_at(wins, i as int).1,
        decreases windows@.len() - i,
    {
        let ghost all_pre = all.deep_view();
        let sentences = state.process_window_tokens(&windows[i]);
        let ghost sent_view = sentences.deep_view();
        let mut sentences = sentences;
        all.append(&mut sentences);
        proof {
            assert(windows@[i as int].deep_view() =~= wins[i as int]);
            assert(all.deep_view() =~= all_pre + sent_view);
        }
        i += 1;
    }
    let last = state.flush();
    match last {
        Some(s) => {
            let ghost all_pre = all.deep_view();
            all.push(s);
            proof {
                assert(all.deep_view() =~= all_pre.push(s@));
            }
        },
        None => {},
    }
    all
}

} // verus!

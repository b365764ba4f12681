//! Carry-state assembler: groups tokens into words (a token that begins with
//! a space opens a new word and closes the one before it) and words into
//! sentences (closed where the boundary oracle sees a sentence end). The
//! unresolved trailing run at each level is handed back as carry, to be
//! prepended to the next window's input; nothing is dropped and nothing is
//! emitted twice.

use vstd::prelude::*;
use crate::types::Token;
use crate::types::Word;
use crate::types::Sentence;
use crate::types::TokenModel;
use crate::types::WordModel;
use crate::types::SentenceModel;
use crate::text::spec_trim;
use crate::text::trim_spaces;
use crate::text::starts_with_space;
use crate::text::join_space;
use crate::text::lemma_join_space_concat;
use crate::boundary::is_word_sentence_end;
use crate::boundary::spec_is_word_sentence_end;

verus! {

/// State of word assembly after some prefix of the token stream: the words
/// completed so far, the text of the word still open, the time of its first
/// token (`None` while no token has opened it), the time of the last token
/// seen, and the index of the first token still unresolved.
pub ghost struct WordAcc {
    pub words: Seq<WordModel>,
    pub cur: Seq<char>,
    pub start: Option<int>,
    pub end: int,
    pub start_idx: int,
}

/// Word assembly starts with no words, an empty open word, and no times.
pub open spec fn word_acc_init() -> WordAcc {
    WordAcc { words: Seq::empty(), cur: Seq::empty(), start: None, end: 0, start_idx: 0 }
}

/// One token of word assembly: a space-led token closes a non-empty open
/// word (trimmed, timed from its first to its last token); the token then
/// joins the open word and advances its times.
pub open spec fn word_acc_step(a: WordAcc, t: TokenModel, i: int) -> WordAcc {
    let a1 = if t.text.len() > 0 && t.text[0] == ' ' && a.cur.len() > 0 {
        WordAcc {
            words: a.words.push(
                WordModel {
                    text: spec_trim(a.cur),
                    start_ms: match a.start {
                        Some(s) => s,
                        None => t.time_ms,
                    },
                    end_ms: a.end,
                },
            ),
            cur: Seq::empty(),
            start: None,
            end: a.end,
            start_idx: i,
        }
    } else {
        a
    };
    let a2 = if a1.start is None {
        WordAcc {
            words: a1.words,
            cur: a1.cur,
            start: Some(t.time_ms),
            end: a1.end,
            start_idx: if a1.cur.len() == 0 {
                i
            } else {
                a1.start_idx
            },
        }
    } else {
        a1
    };
    WordAcc {
        words: a2.words,
        cur: a2.cur + t.text,
        start: a2.start,
        end: t.time_ms,
        start_idx: a2.start_idx,
    }
}

/// Word assembly state after the first `n` tokens.
pub open spec fn word_acc_at(ts: Seq<TokenModel>, n: int) -> WordAcc
    decreases n,
{
    if n <= 0 {
        word_acc_init()
    } else {
        word_acc_step(word_acc_at(ts, n - 1), ts[n - 1], n - 1)
    }
}

/// The words completed by the whole token stream.
pub open spec fn spec_words_of(ts: Seq<TokenModel>) -> Seq<WordModel> {
    word_acc_at(ts, ts.len() as int).words
}

/// The trailing tokens of the stream that still belong to an unfinished
/// word; empty when the last word closed cleanly.
pub open spec fn spec_word_carry(ts: Seq<TokenModel>) -> Seq<TokenModel> {
    let a = word_acc_at(ts, ts.len() as int);
    if a.cur.len() == 0 {
        Seq::empty()
    } else {
        ts.subrange(a.start_idx, ts.len() as int)
    }
}

/// Groups a token stream into words. Returns the completed words and the
/// trailing tokens that still belong to an unfinished word; those tokens are
/// handed to the next window as carry.
pub fn tokens_to_words(tokens: &Vec<Token>) -> (r: (Vec<Word>, Vec<Token>))
    ensures
        r.0.deep_view() == spec_words_of(tokens.deep_view()),
        r.1.deep_view() == spec_word_carry(tokens.deep_view()),
{
    let ghost dv = tokens.deep_view();
    let mut words: Vec<Word> = Vec::new();
    let mut current_word = String::new();
    let mut word_start_time: Option<u64> = None;
    let mut word_end_time: u64 = 0;
    let mut word_start_idx: usize = 0;
    let mut i: usize = 0;
    while i < tokens.len()
        invariant
            dv == tokens.deep_view(),
            dv.len() == tokens@.len(),
            i <= tokens@.len(),
            words.deep_view() == word_acc_at(dv, i as int).words,
            current_word@ == word_acc_at(dv, i as int).cur,
            match word_start_time {
                Some(v) => word_acc_at(dv, i as int).start == Some(v as int),
                None => word_acc_at(dv, i as int).start is None,
            },
            word_end_time as int == word_acc_at(dv, i as int).end,
            word_start_idx as int == word_acc_at(dv, i as int).start_idx,
            word_acc_at(dv, i as int).start_idx <= i,
        decreases tokens@.len() - i,
    {
        let ghost a_pre = word_acc_at(dv, i as int);
        let t = &tokens[i];
        if starts_with_space(t.text.as_str()) && !current_word.as_str().is_empty() {
            let st = match word_start_time {
                Some(v) => v,
                None => t.time_ms,
            };
            let ghost words_pre = words.deep_view();
            let text = trim_spaces(current_word.as_str());
            words.push(Word { text, start_ms: st, end_ms: word_end_time });
            proof {
                assert(words.deep_view() =~= words_pre.push(
                    WordModel {
                        text: spec_trim(a_pre.cur),
                        start_ms: match a_pre.start {
                            Some(s) => s,
                            None => dv[i as int].time_ms,
                        },
                        end_ms: a_pre.end,
                    },
                ));
            }
            current_word = String::new();
            word_start_time = None;
            word_start_idx = i;
        }
        if word_start_time.is_none() {
            word_start_time = Some(t.time_ms);
            if current_word.as_str().is_empty() {
                word_start_idx = i;
            }
        }
        word_end_time = t.time_ms;
        current_word.append(t.text.as_str());
        proof {
            assert(word_acc_at(dv, i + 1) == word_acc_step(a_pre, dv[i as int], i as int));
        }
        i += 1;
    }
    if current_word.as_str().is_empty() {
        let remaining: Vec<Token> = Vec::new();
        proof {
            assert(remaining.deep_view() =~= spec_word_carry(dv));
        }
        (words, remaining)
    } else {
        let mut remaining: Vec<Token> = Vec::new();
        let mut j: usize = word_start_idx;
        while j < tokens.len()
            invariant
                dv == tokens.deep_view(),
                dv.len() == tokens@.len(),
                word_start_idx <= j <= tokens@.len(),
                remaining.deep_view() =~= dv.subrange(word_start_idx as int, j as int),
            decreases tokens@.len() - j,
        {
            let ghost rem_pre = remaining.deep_view();
            remaining.push(tokens[j].clone());
            proof {
                assert(remaining.deep_view() =~= rem_pre.push(dv[j as int]));
                assert(dv.subrange(word_start_idx as int, j + 1).drop_last() =~= dv.subrange(
                    word_start_idx as int,
                    j as int,
                ));
                assert(dv.subrange(word_start_idx as int, j + 1) =~= rem_pre.push(dv[j as int]));
            }
            j += 1;
        }
        (words, remaining)
    }
}

/// State of sentence assembly after some prefix of the word stream: the
/// sentences completed so far, the words of the sentence still open, and the
/// start time of that open sentence.
pub ghost struct SentAcc {
    pub sentences: Seq<SentenceModel>,
    pub cur: Seq<WordModel>,
    pub start: Option<int>,
}

/// Sentence assembly starts with no sentences and no open sentence.
pub open spec fn sent_acc_init() -> SentAcc {
    SentAcc { sentences: Seq::empty(), cur: Seq::empty(), start: None }
}

/// The texts of a run of words.
pub open spec fn word_texts(ws: Seq<WordModel>) -> Seq<Seq<char>> {
    ws.map_values(|w: WordModel| w.text)
}

/// One word of sentence assembly: the word joins the open sentence; if the
/// boundary oracle, shown this word and the one after it (if any), sees a
/// sentence end, the open sentence closes with the words joined by single
/// spaces and timed from its first word's start to this word's end.
pub open spec fn sent_acc_step(a: SentAcc, ws: Seq<WordModel>, i: int) -> SentAcc {
    let w = ws[i];
    let started = if a.start is None {
        Some(w.start_ms)
    } else {
        a.start
    };
    let cur = a.cur.push(w);
    let next = if i + 1 < ws.len() {
        Some(ws[i + 1].text)
    } else {
        None
    };
    if spec_is_word_sentence_end(w.text, next) {
        SentAcc {
            sentences: a.sentences.push(
                SentenceModel {
                    text: join_space(word_texts(cur)),
                    start_ms: match started {
                        Some(s) => s,
                        None => w.start_ms,
                    },
                    end_ms: w.end_ms,
                },
            ),
            cur: Seq::empty(),
            start: None,
        }
    } else {
        SentAcc { sentences: a.sentences, cur, start: started }
    }
}

/// Sentence assembly state after the first `n` words.
pub open spec fn sent_acc_at(ws: Seq<WordModel>, n: int) -> SentAcc
    decreases n,
{
    if n <= 0 {
        sent_acc_init()
    } else {
        sent_acc_step(sent_acc_at(ws, n - 1), ws, n - 1)
    }
}

/// The sentences completed by the whole word stream.
pub open spec fn spec_sentences_of(ws: Seq<WordModel>) -> Seq<SentenceModel> {
    sent_acc_at(ws, ws.len() as int).sentences
}

/// The trailing words that still belong to an unfinished sentence.
pub open spec fn spec_sentence_carry(ws: Seq<WordModel>) -> Seq<WordModel> {
    sent_acc_at(ws, ws.len() as int).cur
}

/// The texts of `ws`, joined by single spaces.
pub fn join_words_text(ws: &Vec<Word>) -> (r: String)
    ensures
        r@ == join_space(word_texts(ws.deep_view())),
{
    let ghost texts = word_texts(ws.deep_view());
    let mut s = String::new();
    let mut j: usize = 0;
    while j < ws.len()
        invariant
            texts == word_texts(ws.deep_view()),
            texts.len() == ws@.len(),
            j <= ws@.len(),
            s@ == join_space(texts.subrange(0, j as int)),
        decreases ws@.len() - j,
    {
        if j > 0 {
            s.append(" ");
        }
        s.append(ws[j].text.as_str());
        proof {
            let pre = texts.subrange(0, j + 1);
            assert(pre.drop_last() =~= texts.subrange(0, j as int));
            assert(pre.last() == texts[j as int]);
            if j == 0 {
                assert(join_space(pre) == texts[0]);
                proof_strlit_space();
            } else {
                assert(join_space(pre) == join_space(texts.subrange(0, j as int)) + seq![' ']
                    + texts[j as int]);
                proof_strlit_space();
                assert(s@ =~= join_space(pre));
            }
        }
        j += 1;
    }
    proof {
        assert(texts.subrange(0, texts.len() as int) =~= texts);
    }
    s
}

/// The literal space used to join word texts is the one-character space.
proof fn proof_strlit_space()
    ensures
        " "@ =~= seq![' '],
{
    reveal_strlit(" ");
}

/// Scans words left to right, closing a sentence at every boundary the
/// word-level oracle reports. Returns the completed sentences and the
/// trailing words of the still-open sentence, which become carry for the
/// next window.
pub fn extract_sentences_from_words(words: &Vec<Word>) -> (r: (Vec<Sentence>, Vec<Word>))
    ensures
        r.0.deep_view() == spec_sentences_of(words.deep_view()),
        r.1.deep_view() == spec_sentence_carry(words.deep_view()),
{
    let ghost dv = words.deep_view();
    let mut sentences: Vec<Sentence> = Vec::new();
    let mut sentence_words: Vec<Word> = Vec::new();
    let mut sentence_start: Option<u64> = None;
    let mut i: usize = 0;
    while i < words.len()
        invariant
            dv == words.deep_view(),
            dv.len() == words@.len(),
            i <= words@.len(),
            sentences.deep_view() == sent_acc_at(dv, i as int).sentences,
            sentence_words.deep_view() == sent_acc_at(dv, i as int).cur,
            match sentence_start {
                Some(v) => sent_acc_at(dv, i as int).start == Some(v as int),
                None => sent_acc_at(dv, i as int).start is None,
            },
        decreases words@.len() - i,
    {
        let ghost a_pre = sent_acc_at(dv, i as int);
        let w = &words[i];
        let st = match sentence_start {
            Some(v) => v,
            None => w.start_ms,
        };
        let ghost cur_pre = sentence_words.deep_view();
        sentence_words.push(w.clone());
        proof {
            assert(sentence_words.deep_view() =~= cur_pre.push(dv[i as int]));
        }
        let is_end = if i + 1 < words.len() {
            is_word_sentence_end(w.text.as_str(), Some(words[i + 1].text.as_str()))
        } else {
            is_word_sentence_end(w.text.as_str(), None)
        };
        if is_end {
            let ghost sent_pre = sentences.deep_view();
            let text = join_words_text(&sentence_words);
            sentences.push(Sentence { text, start_ms: st, end_ms: w.end_ms });
            proof {
                assert(sentences.deep_view() =~= sent_pre.push(
                    SentenceModel {
                        text: join_space(word_texts(cur_pre.push(dv[i as int]))),
                        start_ms: st as int,
                        end_ms: dv[i as int].end_ms,
                    },
                ));
            }
            sentence_words = Vec::new();
            sentence_start = None;
            proof {
                assert(sentence_words.deep_view() =~= Seq::<WordModel>::empty());
            }
        } else {
            sentence_start = Some(st);
        }
        proof {
            assert(sent_acc_at(dv, i + 1) == sent_acc_step(a_pre, dv, i as int));
        }
        i += 1;
    }
    (sentences, sentence_words)
}

/// Token times never decrease along the run.
pub open spec fn tokens_chronological(ts: Seq<TokenModel>) -> bool {
    forall|i: int, j: int|
        0 <= i <= j < ts.len() ==> (#[trigger] ts[i]).time_ms <= (#[trigger] ts[j]).time_ms
}

/// Word start times never decrease along the run.
pub open spec fn words_chronological(ws: Seq<WordModel>) -> bool {
    forall|i: int, j: int|
        0 <= i <= j < ws.len() ==> (#[trigger] ws[i]).start_ms <= (#[trigger] ws[j]).start_ms
}

/// Sentence start times never decrease along the run.
pub open spec fn sentences_chronological(ss: Seq<SentenceModel>) -> bool {
    forall|i: int, j: int|
        0 <= i <= j < ss.len() ==> (#[trigger] ss[i]).start_ms <= (#[trigger] ss[j]).start_ms
}

/// Orderliness of word assembly over a chronological token stream: the
/// completed words are chronological, each spans forward in time, all lie
/// within the times seen so far, the open word (if any) started at the
/// unresolved token's time, and the last completed word does not start
/// after it.
pub open spec fn word_acc_ordered(ts: Seq<TokenModel>, n: int, a: WordAcc) -> bool {
    &&& words_chronological(a.words)
    &&& forall|k: int|
        0 <= k < a.words.len() ==> (#[trigger] a.words[k]).start_ms <= a.words[k].end_ms
    &&& forall|k: int|
        0 <= k < a.words.len() && n > 0 ==> (#[trigger] a.words[k]).start_ms <= ts[n
            - 1].time_ms && a.words[k].end_ms <= ts[n - 1].time_ms
    &&& (n > 0 ==> 0 <= a.start_idx < n && a.start == Some(ts[a.start_idx].time_ms))
    &&& (n == 0 ==> a == word_acc_init())
    &&& (a.words.len() > 0 && n > 0 ==> a.words.last().start_ms <= ts[a.start_idx].time_ms)
    &&& (a.words.len() == 0 ==> a.start_idx == 0)
    &&& (a.words.len() > 0 ==> a.words[0].start_ms == ts[0].time_ms)
    &&& (n > 0 ==> a.end == ts[n - 1].time_ms)
}

/// Word assembly keeps a chronological token stream orderly at every step.
pub proof fn lemma_word_acc_ordered(ts: Seq<TokenModel>, n: int)
    requires
        tokens_chronological(ts),
        0 <= n <= ts.len(),
    ensures
        word_acc_ordered(ts, n, word_acc_at(ts, n)),
    decreases n,
{
    if n > 0 {
        lemma_word_acc_ordered(ts, n - 1);
        let ap = word_acc_at(ts, n - 1);
        let a = word_acc_at(ts, n);
        let t = ts[n - 1];
        if t.text.len() > 0 && t.text[0] == ' ' && ap.cur.len() > 0 {
            let s = match ap.start {
                Some(v) => v,
                None => t.time_ms,
            };
            let w2 = WordModel { text: spec_trim(ap.cur), start_ms: s, end_ms: ap.end };
            assert(n - 1 > 0);
            assert(s == ts[ap.start_idx].time_ms);
            assert(s <= ts[n - 2].time_ms);
            assert(a.words == ap.words.push(w2));
            assert(a.start_idx == n - 1);
            assert(a.start == Some(ts[n - 1].time_ms));
            assert forall|i: int, j: int| 0 <= i <= j < a.words.len() implies (
            #[trigger] a.words[i]).start_ms <= (#[trigger] a.words[j]).start_ms by {
                if j < a.words.len() - 1 {
                    assert(a.words[i] == ap.words[i] && a.words[j] == ap.words[j]);
                } else if i < j {
                    assert(a.words[i] == ap.words[i]);
                    assert(ap.words[i].start_ms <= ap.words.last().start_ms);
                }
            }
        } else {
            assert(a.words == ap.words);
            if ap.start is None {
                assert(n - 1 == 0);
                assert(a.start_idx == n - 1);
            } else {
                assert(a.start == ap.start && a.start_idx == ap.start_idx);
            }
        }
    }
}

/// The completed words of a chronological token stream are orderly, and the
/// unresolved trailing tokens follow them: the carry is chronological, the
/// last completed word does not start after the carry's first token, the
/// first word starts at the stream's first time, and everything lies within
/// the stream's last time.
pub proof fn lemma_words_of_ordered(ts: Seq<TokenModel>)
    requires
        tokens_chronological(ts),
    ensures
        words_chronological(spec_words_of(ts)),
        forall|k: int|
            0 <= k < spec_words_of(ts).len() ==> (#[trigger] spec_words_of(ts)[k]).start_ms
                <= spec_words_of(ts)[k].end_ms,
        forall|k: int|
            0 <= k < spec_words_of(ts).len() ==> (#[trigger] spec_words_of(ts)[k]).start_ms
                <= ts.last().time_ms && spec_words_of(ts)[k].end_ms <= ts.last().time_ms,
        spec_words_of(ts).len() > 0 ==> spec_words_of(ts)[0].start_ms == ts[0].time_ms,
        tokens_chronological(spec_word_carry(ts)),
        forall|k: int|
            0 <= k < spec_word_carry(ts).len() ==> (#[trigger] spec_word_carry(ts)[k]).time_ms
                <= ts.last().time_ms,
        spec_words_of(ts).len() > 0 && spec_word_carry(ts).len() > 0 ==> spec_words_of(
            ts,
        ).last().start_ms <= spec_word_carry(ts)[0].time_ms,
        spec_words_of(ts).len() == 0 && spec_word_carry(ts).len() > 0 ==> spec_word_carry(ts)
            == ts,
{
    let n = ts.len() as int;
    lemma_word_acc_ordered(ts, n);
    let a = word_acc_at(ts, n);
    if a.cur.len() == 0 {
        assert(spec_word_carry(ts).len() == 0);
    } else {
        assert(n > 0);
        assert(spec_word_carry(ts) == ts.subrange(a.start_idx, n));
        if a.words.len() == 0 {
            assert(a.start_idx == 0);
            assert(spec_word_carry(ts) =~= ts);
        }
    }
}

/// The texts of a run of sentences.
pub open spec fn sentence_texts(ss: Seq<SentenceModel>) -> Seq<Seq<char>> {
    ss.map_values(|s: SentenceModel| s.text)
}

/// After any prefix of the word stream, sentence assembly has consumed
/// exactly the words before the open sentence: the open sentence is the
/// unconsumed suffix, the closed sentences' texts joined by spaces are the
/// consumed words' texts so joined, and nothing has been consumed while no
/// sentence is closed.
pub proof fn lemma_sent_acc_conserves(ws: Seq<WordModel>, n: int)
    requires
        0 <= n <= ws.len(),
    ensures
        0 <= sent_acc_at(ws, n).cur.len() <= n,
        sent_acc_at(ws, n).cur == ws.subrange(n - sent_acc_at(ws, n).cur.len(), n),
        join_space(sentence_texts(sent_acc_at(ws, n).sentences)) == join_space(
            word_texts(ws.subrange(0, n - sent_acc_at(ws, n).cur.len())),
        ),
        sent_acc_at(ws, n).sentences.len() == 0 ==> sent_acc_at(ws, n).cur.len() == n,
        forall|k2: int|
            0 <= k2 < sent_acc_at(ws, n).sentences.len() ==> (#[trigger] sent_acc_at(
                ws,
                n,
            ).sentences[k2]).text.len() > 0,
    decreases n,
{
    if n == 0 {
        let a = sent_acc_at(ws, 0);
        assert(a.cur =~= ws.subrange(0, 0));
        assert(sentence_texts(a.sentences) =~= Seq::<Seq<char>>::empty());
        assert(word_texts(ws.subrange(0, 0)) =~= Seq::<Seq<char>>::empty());
    } else {
        lemma_sent_acc_conserves(ws, n - 1);
        let ap = sent_acc_at(ws, n - 1);
        let a = sent_acc_at(ws, n);
        let w = ws[n - 1];
        let cur2 = ap.cur.push(w);
        let k = n - 1 - ap.cur.len();
        assert(cur2 =~= ws.subrange(k, n));
        let next = if n < ws.len() {
            Some(ws[n].text)
        } else {
            None
        };
        if spec_is_word_sentence_end(w.text, next) {
            let x = join_space(word_texts(cur2));
            assert(sentence_texts(a.sentences) =~= sentence_texts(ap.sentences) + seq![x]);
            assert(word_texts(ws.subrange(0, n)) =~= word_texts(ws.subrange(0, k)) + word_texts(
                cur2,
            ));
            lemma_join_space_concat(sentence_texts(ap.sentences), seq![x]);
            lemma_join_space_concat(word_texts(ws.subrange(0, k)), word_texts(cur2));
            assert(join_space(seq![x]) == x);
            assert(w.text.len() > 0);
            assert(word_texts(cur2).last() == w.text);
            crate::text::lemma_join_space_last_nonempty(word_texts(cur2));
            assert(x.len() > 0);
            if ap.sentences.len() == 0 {
                assert(k == 0);
                assert(word_texts(ws.subrange(0, 0)).len() == 0);
                assert(sentence_texts(ap.sentences).len() == 0);
            } else {
                assert(word_texts(ws.subrange(0, k)).len() == k);
                assert(k > 0) by {
                    if k == 0 {
                        assert(join_space(word_texts(ws.subrange(0, 0))) =~= Seq::<
                            char,
                        >::empty());
                        let st = sentence_texts(ap.sentences);
                        assert(st.last() == ap.sentences.last().text);
                        assert(st.last().len() > 0);
                        crate::text::lemma_join_space_last_nonempty(st);
                    }
                }
            }
            assert(a.cur =~= ws.subrange(n - a.cur.len(), n));
        } else {
            assert(a.cur == cur2);
            assert(n - a.cur.len() == k);
        }
    }
}

/// No text is lost and none is emitted twice by sentence assembly: the
/// carry is exactly the unconsumed suffix of the words, and the closed
/// sentences' texts, joined by single spaces, reproduce the consumed
/// words' texts exactly.
pub proof fn lemma_sentences_conserve_words(ws: Seq<WordModel>)
    ensures
        spec_sentence_carry(ws).len() <= ws.len(),
        spec_sentence_carry(ws) == ws.subrange(
            ws.len() - spec_sentence_carry(ws).len(),
            ws.len() as int,
        ),
        join_space(sentence_texts(spec_sentences_of(ws))) == join_space(
            word_texts(ws.subrange(0, ws.len() - spec_sentence_carry(ws).len())),
        ),
{
    lemma_sent_acc_conserves(ws, ws.len() as int);
}

/// Orderliness of sentence assembly over orderly words: the closed
/// sentences are chronological, each spans forward in time, all start
/// within the words seen so far, the open sentence started at its first
/// word's time, and the last closed sentence does not start after it.
pub open spec fn sent_acc_ordered(ws: Seq<WordModel>, n: int, a: SentAcc) -> bool {
    &&& sentences_chronological(a.sentences)
    &&& forall|k: int|
        0 <= k < a.sentences.len() ==> (#[trigger] a.sentences[k]).start_ms
            <= a.sentences[k].end_ms
    &&& forall|k: int|
        0 <= k < a.sentences.len() && n > 0 ==> (#[trigger] a.sentences[k]).start_ms <= ws[n
            - 1].start_ms
    &&& (a.cur.len() > 0 ==> a.start == Some(a.cur[0].start_ms))
    &&& (a.cur.len() == 0 ==> a.start is None)
    &&& (a.sentences.len() > 0 && a.cur.len() > 0 ==> a.sentences.last().start_ms
        <= a.cur[0].start_ms)
    &&& (a.sentences.len() > 0 ==> a.sentences[0].start_ms == ws[0].start_ms)
}

/// Sentence assembly keeps orderly words orderly at every step.
pub proof fn lemma_sent_acc_ordered(ws: Seq<WordModel>, n: int)
    requires
        words_chronological(ws),
        forall|k: int| 0 <= k < ws.len() ==> (#[trigger] ws[k]).start_ms <= ws[k].end_ms,
        0 <= n <= ws.len(),
    ensures
        sent_acc_ordered(ws, n, sent_acc_at(ws, n)),
    decreases n,
{
    if n > 0 {
        lemma_sent_acc_ordered(ws, n - 1);
        lemma_sent_acc_conserves(ws, n - 1);
        let ap = sent_acc_at(ws, n - 1);
        let a = sent_acc_at(ws, n);
        let w = ws[n - 1];
        let started = if ap.start is None {
            Some(w.start_ms)
        } else {
            ap.start
        };
        let v = match started {
            Some(x) => x,
            None => w.start_ms,
        };
        if ap.cur.len() > 0 {
            assert(ap.cur[0] == ws[n - 1 - ap.cur.len()]);
            assert(v == ap.cur[0].start_ms);
            assert(v <= w.start_ms);
        } else {
            assert(v == w.start_ms);
        }
        if ap.sentences.len() > 0 {
            assert(n - 1 > 0);
            if ap.cur.len() > 0 {
                assert(ap.sentences.last().start_ms <= v);
            } else {
                assert(ap.sentences.last().start_ms <= ws[n - 2].start_ms);
                assert(ws[n - 2].start_ms <= ws[n - 1].start_ms);
                assert(ap.sentences.last().start_ms <= v);
            }
        }
        let next = if n < ws.len() {
            Some(ws[n].text)
        } else {
            None
        };
        if spec_is_word_sentence_end(w.text, next) {
            let cur2 = ap.cur.push(w);
            let s_new = SentenceModel {
                text: join_space(word_texts(cur2)),
                start_ms: v,
                end_ms: w.end_ms,
            };
            assert(a.sentences == ap.sentences.push(s_new));
            assert(v <= w.start_ms && w.start_ms <= w.end_ms);
            assert forall|i: int, j: int| 0 <= i <= j < a.sentences.len() implies (
            #[trigger] a.sentences[i]).start_ms <= (#[trigger] a.sentences[j]).start_ms by {
                if j < a.sentences.len() - 1 {
                    assert(a.sentences[i] == ap.sentences[i] && a.sentences[j] == ap.sentences[j]);
                } else if i < j {
                    assert(a.sentences[i] == ap.sentences[i]);
                    assert(ap.sentences[i].start_ms <= ap.sentences.last().start_ms);
                }
            }
            if ap.sentences.len() == 0 {
                assert(ap.cur.len() == n - 1);
                if n - 1 > 0 {
                    assert(ap.cur[0] == ws[0]);
                }
                assert(a.sentences[0].start_ms == ws[0].start_ms);
            }
        } else {
            assert(a.sentences == ap.sentences);
            assert(a.cur == ap.cur.push(w));
            if ap.cur.len() > 0 {
                assert(a.cur[0] == ap.cur[0]);
            }
        }
    }
}

/// The sentences of an orderly word stream are orderly, and the carry
/// follows them: sentence starts are chronological word starts, the first
/// sentence starts at the first word, nothing starts after the last word,
/// and the last sentence does not start after the carry's first word.
pub proof fn lemma_sentences_of_ordered(ws: Seq<WordModel>)
    requires
        words_chronological(ws),
        forall|k: int| 0 <= k < ws.len() ==> (#[trigger] ws[k]).start_ms <= ws[k].end_ms,
    ensures
        sentences_chronological(spec_sentences_of(ws)),
        forall|k: int|
            0 <= k < spec_sentences_of(ws).len() ==> (#[trigger] spec_sentences_of(
                ws,
            )[k]).start_ms <= spec_sentences_of(ws)[k].end_ms,
        forall|k: int|
            0 <= k < spec_sentences_of(ws).len() ==> (#[trigger] spec_sentences_of(
                ws,
            )[k]).start_ms <= ws.last().start_ms,
        spec_sentences_of(ws).len() > 0 ==> spec_sentences_of(ws)[0].start_ms == ws[0].start_ms,
        spec_sentence_carry(ws).len() <= ws.len(),
        spec_sentence_carry(ws) == ws.subrange(
            ws.len() - spec_sentence_carry(ws).len(),
            ws.len() as int,
        ),
        spec_sentences_of(ws).len() > 0 && spec_sentence_carry(ws).len() > 0
            ==> spec_sentences_of(ws).last().start_ms <= spec_sentence_carry(ws)[0].start_ms,
        spec_sentences_of(ws).len() == 0 ==> spec_sentence_carry(ws) == ws,
{
    let n = ws.len() as int;
    lemma_sent_acc_ordered(ws, n);
    lemma_sent_acc_conserves(ws, n);
    let a = sent_acc_at(ws, n);
    if a.sentences.len() == 0 {
        assert(a.cur.len() == n);
        assert(a.cur =~= ws);
    }
    if a.sentences.len() > 0 && a.cur.len() > 0 {
        assert(a.cur[0] == ws[n - a.cur.len()]);
    }
}

/// The result of one assembly round: completed sentences, word-level carry,
/// and token-level carry.
pub open spec fn spec_extract_sentences(carry: Seq<WordModel>, ts: Seq<TokenModel>) -> (
    Seq<SentenceModel>,
    Seq<WordModel>,
    Seq<TokenModel>,
) {
    let combined = carry + spec_words_of(ts);
    (spec_sentences_of(combined), spec_sentence_carry(combined), spec_word_carry(ts))
}

/// One assembly round for a window: groups the window's tokens into words,
/// prepends the previous round's unresolved words, and extracts the
/// completed sentences. Returns the sentences, the new word-level carry, and
/// the new token-level carry.
pub fn extract_sentences(carry_words: &Vec<Word>, tokens: &Vec<Token>) -> (r: (
    Vec<Sentence>,
    Vec<Word>,
    Vec<Token>,
))
    ensures
        r.0.deep_view() == spec_extract_sentences(carry_words.deep_view(), tokens.deep_view()).0,
        r.1.deep_view() == spec_extract_sentences(carry_words.deep_view(), tokens.deep_view()).1,
        r.2.deep_view() == spec_extract_sentences(carry_words.deep_view(), tokens.deep_view()).2,
{
    let (new_words, remaining_tokens) = tokens_to_words(tokens);
    let mut combined: Vec<Word> = Vec::new();
    let mut k: usize = 0;
    while k < carry_words.len()
        invariant
            k <= carry_words@.len(),
            combined.deep_view() =~= carry_words.deep_view().subrange(0, k as int),
        decreases carry_words@.len() - k,
    {
        let ghost pre = combined.deep_view();
        combined.push(carry_words[k].clone());
        proof {
            assert(combined.deep_view() =~= pre.push(carry_words.deep_view()[k as int]));
            assert(carry_words.deep_view().subrange(0, k + 1) =~= pre.push(
                carry_words.deep_view()[k as int],
            ));
        }
        k += 1;
    }
    proof {
        assert(carry_words.deep_view().subrange(0, carry_words@.len() as int)
            =~= carry_words.deep_view());
    }
    let mut new_words = new_words;
    let ghost combined_pre = combined.deep_view();
    let ghost new_words_view = new_words.deep_view();
    combined.append(&mut new_words);
    proof {
        assert(combined.deep_view() =~= combined_pre + new_words_view);
    }
    let (sentences, remaining_words) = extract_sentences_from_words(&combined);
    (sentences, remaining_words, remaining_tokens)
}

} // verus!

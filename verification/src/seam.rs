//! Seam deduplicator: per window, only the central time range of the
//! recognizer's output is trusted, because recognition degrades near a
//! window's raw edges. Except at the true start and end of the recording,
//! half of each overlap region is cut away on each side; the surviving
//! tokens' times are converted from window-relative to absolute recording
//! time. For windows planned by `crate::window::chunk_indices` the central
//! ranges tile the recording exactly: no time interval is counted twice and
//! none is dropped.

use vstd::prelude::*;
use vstd::arithmetic::div_mod::lemma_div_multiples_vanish;
use vstd::arithmetic::div_mod::lemma_hoist_over_denominator;
use vstd::arithmetic::div_mod::lemma_div_is_ordered;
use vstd::arithmetic::div_mod::lemma_div_pos_is_pos;
use vstd::arithmetic::mul::lemma_mul_is_distributive_sub_other_way;
use crate::types::Token;
use crate::types::TokenModel;
use crate::window::window_plan;
use crate::window::lemma_window_plan_structure;

verus! {

/// The duration of `samples` samples at `rate` samples per second, in whole
/// milliseconds, rounded toward zero.
pub open spec fn ms_of_samples(samples: int, rate: int) -> int {
    samples * 1000 / rate
}

/// Start of a window's trusted central range, in window-relative
/// milliseconds: the recording's very first window is trusted from its
/// beginning, every other window only from half the overlap in.
pub open spec fn spec_central_start_ms(start: int, overlap_seconds: int) -> int {
    if start == 0 {
        0
    } else {
        overlap_seconds * 500
    }
}

/// End of a window's trusted central range, in window-relative
/// milliseconds: the window reaching the end of the recording is trusted to
/// its end, every other one up to half the overlap before a full chunk.
pub open spec fn spec_central_end_ms(
    start: int,
    end: int,
    samples_len: int,
    rate: int,
    chunk_seconds: int,
    overlap_seconds: int,
) -> int {
    if end == samples_len {
        ms_of_samples(end - start, rate)
    } else {
        chunk_seconds * 1000 - overlap_seconds * 500
    }
}

/// The tokens of `ts` whose time lies in `[lo, hi)`, with `shift` added to
/// the surviving times.
pub open spec fn spec_filter_central(ts: Seq<TokenModel>, shift: int, lo: int, hi: int) -> Seq<
    TokenModel,
>
    decreases ts.len(),
{
    if ts.len() == 0 {
        Seq::empty()
    } else {
        let prefix = spec_filter_central(ts.drop_last(), shift, lo, hi);
        let t = ts.last();
        if lo <= t.time_ms && t.time_ms < hi {
            prefix.push(TokenModel { text: t.text, time_ms: t.time_ms + shift })
        } else {
            prefix
        }
    }
}

/// The trusted central range of the window `(start, end)`, in
/// window-relative milliseconds.
pub fn central_range_for_chunk(
    start: usize,
    end: usize,
    samples_len: usize,
    sample_rate: u32,
    chunk_seconds: usize,
    overlap_seconds: usize,
) -> (r: (u64, u64))
    requires
        sample_rate > 0,
        overlap_seconds < chunk_seconds,
        start <= end <= samples_len,
        chunk_seconds * 1000 <= u64::MAX,
        (end - start) * 1000 <= u64::MAX,
    ensures
        r.0 == spec_central_start_ms(start as int, overlap_seconds as int),
        r.1 == spec_central_end_ms(
            start as int,
            end as int,
            samples_len as int,
            sample_rate as int,
            chunk_seconds as int,
            overlap_seconds as int,
        ),
{
    let central_start: u64 = if start == 0 {
        0
    } else {
        (overlap_seconds as u64) * 500
    };
    let central_end: u64 = if end == samples_len {
        (((end - start) as u64) * 1000) / (sample_rate as u64)
    } else {
        (chunk_seconds as u64) * 1000 - (overlap_seconds as u64) * 500
    };
    (central_start, central_end)
}

/// Keeps the tokens whose window-relative time lies in
/// `[central_start_ms, central_end_ms)` and converts the survivors to
/// absolute time by adding `chunk_start_ms`.
pub fn filter_central_tokens(
    tokens: &Vec<Token>,
    chunk_start_ms: u64,
    central_start_ms: u64,
    central_end_ms: u64,
) -> (r: Vec<Token>)
    requires
        forall|k: int|
            0 <= k < tokens@.len() ==> (#[trigger] tokens@[k]).time_ms + chunk_start_ms
                <= u64::MAX,
    ensures
        r.deep_view() == spec_filter_central(
            tokens.deep_view(),
            chunk_start_ms as int,
            central_start_ms as int,
            central_end_ms as int,
        ),
{
    let ghost dv = tokens.deep_view();
    let mut r: Vec<Token> = Vec::new();
    let mut i: usize = 0;
    while i < tokens.len()
        invariant
            i <= tokens@.len(),
            dv == tokens.deep_view(),
            dv.len() == tokens@.len(),
            forall|k: int|
                0 <= k < tokens@.len() ==> (#[trigger] tokens@[k]).time_ms + chunk_start_ms
                    <= u64::MAX,
            r.deep_view() == spec_filter_central(
                dv.subrange(0, i as int),
                chunk_start_ms as int,
                central_start_ms as int,
                central_end_ms as int,
            ),
        decreases tokens@.len() - i,
    {
        let ghost r_old = r.deep_view();
        let t = &tokens[i];
        if t.time_ms >= central_start_ms && t.time_ms < central_end_ms {
            r.push(Token { text: t.text.clone(), time_ms: t.time_ms + chunk_start_ms });
            proof {
                assert(r.deep_view() =~= r_old.push(
                    TokenModel {
                        text: tokens@[i as int].text@,
                        time_ms: tokens@[i as int].time_ms + chunk_start_ms,
                    },
                ));
            }
        }
        proof {
            let pre = dv.subrange(0, i + 1);
            assert(pre.drop_last() =~= dv.subrange(0, i as int));
            assert(pre.last() == dv[i as int]);
        }
        i += 1;
    }
    proof {
        assert(dv.subrange(0, dv.len() as int) =~= dv);
    }
    r
}

/// Runs one window's recognizer output through seam deduplication: computes
/// the central range for the window `(start, end)`, keeps the tokens inside
/// it, and converts them to absolute recording time.
pub fn extract_central_tokens(
    tokens: &Vec<Token>,
    start: usize,
    end: usize,
    samples_len: usize,
    sample_rate: u32,
    chunk_seconds: usize,
    overlap_seconds: usize,
) -> (r: Vec<Token>)
    requires
        sample_rate > 0,
        overlap_seconds < chunk_seconds,
        start <= end <= samples_len,
        chunk_seconds * 1000 <= u64::MAX,
        (end - start) * 1000 <= u64::MAX,
        start * 1000 <= u64::MAX,
        forall|k: int|
            0 <= k < tokens@.len() ==> (#[trigger] tokens@[k]).time_ms + ms_of_samples(
                start as int,
                sample_rate as int,
            ) <= u64::MAX,
    ensures
        r.deep_view() == spec_filter_central(
            tokens.deep_view(),
            ms_of_samples(start as int, sample_rate as int),
            spec_central_start_ms(start as int, overlap_seconds as int),
            spec_central_end_ms(
                start as int,
                end as int,
                samples_len as int,
                sample_rate as int,
                chunk_seconds as int,
                overlap_seconds as int,
            ),
        ),
{
    let range = central_range_for_chunk(
        start,
        end,
        samples_len,
        sample_rate,
        chunk_seconds,
        overlap_seconds,
    );
    let chunk_start_ms: u64 = ((start as u64) * 1000) / (sample_rate as u64);
    proof {
        lemma_div_pos_is_pos(start as int * 1000, sample_rate as int);
    }
    filter_central_tokens(tokens, chunk_start_ms, range.0, range.1)
}

/// Deduplication keeps the recognizer's order and stays inside the central
/// range: if a window's tokens are chronological, the surviving tokens are
/// chronological too, and every surviving absolute time lies in the
/// window's absolute central range. With the ranges tiling the recording
/// (see `lemma_central_ranges_partition`), the windows' surviving streams
/// are chronological across windows as well.
pub proof fn lemma_filter_central_ordered(ts: Seq<TokenModel>, shift: int, lo: int, hi: int)
    requires
        crate::assemble::tokens_chronological(ts),
    ensures
        crate::assemble::tokens_chronological(spec_filter_central(ts, shift, lo, hi)),
        forall|k: int|
            0 <= k < spec_filter_central(ts, shift, lo, hi).len() ==> shift + lo <= (
            #[trigger] spec_filter_central(ts, shift, lo, hi)[k]).time_ms < shift + hi,
        ts.len() > 0 ==> forall|k: int|
            0 <= k < spec_filter_central(ts, shift, lo, hi).len() ==> (#[trigger] spec_filter_central(
                ts,
                shift,
                lo,
                hi,
            )[k]).time_ms <= ts.last().time_ms + shift,
    decreases ts.len(),
{
    if ts.len() > 0 {
        let front = ts.drop_last();
        assert(crate::assemble::tokens_chronological(front)) by {
            assert forall|i: int, j: int| 0 <= i <= j < front.len() implies (
            #[trigger] front[i]).time_ms <= (#[trigger] front[j]).time_ms by {
                assert(front[i] == ts[i] && front[j] == ts[j]);
            }
        }
        lemma_filter_central_ordered(front, shift, lo, hi);
        let prefix = spec_filter_central(front, shift, lo, hi);
        let out = spec_filter_central(ts, shift, lo, hi);
        let t = ts.last();
        if front.len() > 0 {
            assert(front.last().time_ms <= t.time_ms);
        }
        if lo <= t.time_ms < hi {
            assert(out == prefix.push(TokenModel { text: t.text, time_ms: t.time_ms + shift }));
            assert forall|i: int, j: int| 0 <= i <= j < out.len() implies (
            #[trigger] out[i]).time_ms <= (#[trigger] out[j]).time_ms by {
                if j < out.len() - 1 {
                    assert(out[i] == prefix[i] && out[j] == prefix[j]);
                } else if i < j {
                    assert(out[i] == prefix[i]);
                    assert(front.len() > 0);
                    assert(prefix[i].time_ms <= front.last().time_ms + shift);
                }
            }
        }
    }
}

/// Absolute start of a window's trusted central range, in milliseconds.
pub open spec fn abs_central_start_ms(w: (int, int), rate: int, overlap_seconds: int) -> int {
    ms_of_samples(w.0, rate) + spec_central_start_ms(w.0, overlap_seconds)
}

/// Absolute end of a window's trusted central range, in milliseconds.
pub open spec fn abs_central_end_ms(
    w: (int, int),
    samples_len: int,
    rate: int,
    chunk_seconds: int,
    overlap_seconds: int,
) -> int {
    ms_of_samples(w.0, rate) + spec_central_end_ms(
        w.0,
        w.1,
        samples_len,
        rate,
        chunk_seconds,
        overlap_seconds,
    )
}

/// Window start positions in the plan for chunks of `cs` seconds
/// overlapping by `os` seconds: the `k`-th window starts at
/// `k * (cs - os) * rate` samples.
proof fn lemma_plan_start_formula(total: int, rate: int, cs: int, os: int, k: int)
    requires
        rate > 0,
        0 < os < cs,
        0 <= k < window_plan(total, cs * rate, os * rate).len(),
    ensures
        window_plan(total, cs * rate, os * rate)[k].0 == k * ((cs - os) * rate),
    decreases k,
{
    let plan = window_plan(total, cs * rate, os * rate);
    assert(cs * rate > os * rate && os * rate > 0) by (nonlinear_arith)
        requires
            rate > 0,
            0 < os < cs,
    ;
    lemma_window_plan_structure(total, cs * rate, os * rate);
    if k == 0 {
        assert(0 * ((cs - os) * rate) == 0);
    } else {
        lemma_plan_start_formula(total, rate, cs, os, k - 1);
        assert(plan[k].0 == plan[k - 1].0 + cs * rate - os * rate);
        assert(cs * rate - os * rate == (cs - os) * rate) by {
            lemma_mul_is_distributive_sub_other_way(rate, cs, os);
        }
        assert((k - 1) * ((cs - os) * rate) + (cs - os) * rate == k * ((cs - os) * rate)) by {
            lemma_mul_is_distributive_sub_other_way((cs - os) * rate, k, 1);
        }
    }
}

/// Seam-free deduplication: for the planned windows of a recording of
/// `total` samples, the absolute central ranges tile the recording's time
/// span exactly. The first range starts at 0, each range ends where the
/// next begins, the last ends at the recording's duration, and no range is
/// reversed. Chunk and overlap are `cs` and `os` seconds at `rate` samples
/// per second.
pub proof fn lemma_central_ranges_partition(total: int, rate: int, cs: int, os: int)
    requires
        rate > 0,
        0 < os < cs,
        total > 0,
    ensures
        abs_central_start_ms(window_plan(total, cs * rate, os * rate)[0], rate, os) == 0,
        forall|k: int|
            0 <= k < window_plan(total, cs * rate, os * rate).len() - 1 ==> abs_central_end_ms(
                #[trigger] window_plan(total, cs * rate, os * rate)[k],
                total,
                rate,
                cs,
                os,
            ) == abs_central_start_ms(window_plan(total, cs * rate, os * rate)[k + 1], rate, os),
        abs_central_end_ms(
            window_plan(total, cs * rate, os * rate).last(),
            total,
            rate,
            cs,
            os,
        ) == ms_of_samples(total, rate),
        forall|k: int|
            0 <= k < window_plan(total, cs * rate, os * rate).len() ==> abs_central_start_ms(
                #[trigger] window_plan(total, cs * rate, os * rate)[k],
                rate,
                os,
            ) <= abs_central_end_ms(
                window_plan(total, cs * rate, os * rate)[k],
                total,
                rate,
                cs,
                os,
            ),
{
    let chunk = cs * rate;
    let overlap = os * rate;
    let plan = window_plan(total, chunk, overlap);
    assert(cs * rate > os * rate && os * rate > 0) by (nonlinear_arith)
        requires
            rate > 0,
            0 < os < cs,
    ;
    assert(0 < overlap < chunk);
    lemma_window_plan_structure(total, chunk, overlap);
    assert(plan.len() > 0);

    // The first central range starts at the recording's start.
    assert(plan[0].0 == 0);
    assert(ms_of_samples(0, rate) == 0) by {
        assert(0 * 1000 == 0);
        lemma_div_multiples_vanish(0, rate);
        assert(rate * 0 == 0);
    }

    // Window starts, scaled to milliseconds, are exact: start * 1000 is a
    // multiple of rate, so no truncation happens at interior seams.
    assert forall|k: int| 0 <= k < plan.len() implies ms_of_samples((#[trigger] plan[k]).0, rate)
        == k * ((cs - os) * 1000) by {
        lemma_plan_start_formula(total, rate, cs, os, k);
        let m = k * ((cs - os) * 1000);
        assert(plan[k].0 * 1000 == rate * m) by (nonlinear_arith)
            requires
                plan[k].0 == k * ((cs - os) * rate),
                m == k * ((cs - os) * 1000),
        ;
        lemma_div_multiples_vanish(m, rate);
    }

    // Each interior seam: the current range ends exactly where the next begins.
    assert forall|k: int| 0 <= k < plan.len() - 1 implies abs_central_end_ms(
        #[trigger] plan[k],
        total,
        rate,
        cs,
        os,
    ) == abs_central_start_ms(plan[k + 1], rate, os) by {
        assert(plan[k].1 < total);
        assert(plan[k + 1].0 == plan[k].0 + chunk - overlap);
        assert(plan[k + 1].0 > 0) by {
            lemma_plan_start_formula(total, rate, cs, os, k);
            assert(k * ((cs - os) * rate) >= 0 && (cs - os) * rate > 0) by (nonlinear_arith)
                requires
                    k >= 0,
                    rate > 0,
                    os < cs,
            ;
        }
        let a = ms_of_samples(plan[k].0, rate);
        let b = ms_of_samples(plan[k + 1].0, rate);
        assert(a == k * ((cs - os) * 1000));
        assert(b == (k + 1) * ((cs - os) * 1000));
        assert(b == a + (cs - os) * 1000) by (nonlinear_arith)
            requires
                a == k * ((cs - os) * 1000),
                b == (k + 1) * ((cs - os) * 1000),
        ;
        assert(abs_central_end_ms(plan[k], total, rate, cs, os) == a + cs * 1000 - os * 500);
        assert(abs_central_start_ms(plan[k + 1], rate, os) == b + os * 500);
        assert((cs - os) * 1000 == cs * 1000 - os * 1000) by {
            lemma_mul_is_distributive_sub_other_way(1000, cs, os);
        }
    }

    // The last central range ends at the recording's full duration.
    let l = plan.len() - 1;
    assert(plan[l].1 == total);
    lemma_plan_start_formula(total, rate, cs, os, l);
    let sl = plan[l].0;
    let m = l * ((cs - os) * 1000);
    assert(ms_of_samples(sl, rate) == m);
    assert(sl * 1000 == rate * m) by (nonlinear_arith)
        requires
            sl == l * ((cs - os) * rate),
            m == l * ((cs - os) * 1000),
    ;
    assert(ms_of_samples(total - sl, rate) == ms_of_samples(total, rate) - m) by {
        assert((total - sl) * 1000 == total * 1000 - m * rate) by (nonlinear_arith)
            requires
                sl * 1000 == rate * m,
        ;
        lemma_hoist_over_denominator(total * 1000 - m * rate, m, rate as nat);
        assert((total * 1000 - m * rate) + m * rate == total * 1000);
    }
    assert(abs_central_end_ms(plan[l], total, rate, cs, os) == ms_of_samples(total, rate));

    // No central range is reversed: its start never passes its end.
    assert forall|k: int| 0 <= k < plan.len() implies abs_central_start_ms(
        #[trigger] plan[k],
        rate,
        os,
    ) <= abs_central_end_ms(plan[k], total, rate, cs, os) by {
        if plan[k].1 == total {
            // Last window: its length is at least the overlap unless it is
            // the only window starting at 0.
            if plan[k].0 == 0 {
                lemma_div_pos_is_pos((plan[k].1 - plan[k].0) * 1000, rate);
            } else {
                assert(k > 0) by {
                    if k == 0 {
                        lemma_plan_start_formula(total, rate, cs, os, 0);
                        assert(0 * ((cs - os) * rate) == 0);
                    }
                }
                assert(plan[k].0 == plan[k - 1].0 + chunk - overlap);
                assert(plan[k - 1].1 == plan[k - 1].0 + chunk);
                assert(plan[k - 1].1 <= total);
                assert(total - plan[k].0 >= overlap);
                assert(ms_of_samples(total - plan[k].0, rate) >= os * 1000) by {
                    assert(overlap * 1000 == rate * (os * 1000)) by (nonlinear_arith)
                        requires
                            overlap == os * rate,
                    ;
                    lemma_div_multiples_vanish(os * 1000, rate);
                    assert((total - plan[k].0) * 1000 >= overlap * 1000) by (nonlinear_arith)
                        requires
                            total - plan[k].0 >= overlap,
                    ;
                    lemma_div_is_ordered(overlap * 1000, (total - plan[k].0) * 1000, rate);
                }
                assert(os * 500 <= os * 1000) by (nonlinear_arith)
                    requires
                        os > 0,
                ;
            }
        } else {
            assert(spec_central_end_ms(plan[k].0, plan[k].1, total, rate, cs, os) == cs * 1000 - os
                * 500);
            assert(os * 500 <= cs * 1000 - os * 500) by (nonlinear_arith)
                requires
                    0 < os < cs,
            ;
        }
    }
}

} // verus!

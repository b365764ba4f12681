//! Window planner: turns a total sample count and a chunk/overlap sizing
//! into the sequence of `[start, end)` sample ranges fed to the recognizer.

use vstd::prelude::*;

verus! {

/// The window ranges starting at `start`: each window spans at most `chunk`
/// samples, and the next window begins `overlap` samples before the current
/// one ends, except that the window reaching `total` is the last.
pub open spec fn window_plan_from(start: int, total: int, chunk: int, overlap: int) -> Seq<(
    int,
    int,
)>
    decreases total - start
    when 0 < overlap < chunk && 0 <= start
{
    if start >= total {
        Seq::empty()
    } else {
        let end = if start + chunk <= total {
            start + chunk
        } else {
            total
        };
        let next = if end == total {
            end
        } else {
            end - overlap
        };
        seq![(start, end)] + window_plan_from(next, total, chunk, overlap)
    }
}

/// The full window plan for a recording of `total` samples.
pub open spec fn window_plan(total: int, chunk: int, overlap: int) -> Seq<(int, int)> {
    window_plan_from(0, total, chunk, overlap)
}

/// Maps a vector of executable sample ranges to its mathematical form.
pub open spec fn ranges_int(s: Seq<(usize, usize)>) -> Seq<(int, int)> {
    s.map_values(|p: (usize, usize)| (p.0 as int, p.1 as int))
}

/// Plans the windows for `total_samples` samples: starting at 0, each window
/// ends `chunk_size` samples later (clipped to the end of the recording), and
/// consecutive windows share `overlap_size` samples. A recording of 0 samples
/// gets no window.
pub fn chunk_indices(total_samples: usize, chunk_size: usize, overlap_size: usize) -> (r: Vec<
    (usize, usize),
>)
    requires
        0 < overlap_size < chunk_size,
    ensures
        ranges_int(r@) == window_plan(total_samples as int, chunk_size as int, overlap_size as int),
{
    let ghost plan = window_plan(total_samples as int, chunk_size as int, overlap_size as int);
    let mut r: Vec<(usize, usize)> = Vec::new();
    let mut start: usize = 0;
    while start < total_samples
        invariant
            0 < overlap_size < chunk_size,
            start <= total_samples,
            ranges_int(r@) + window_plan_from(
                start as int,
                total_samples as int,
                chunk_size as int,
                overlap_size as int,
            ) == plan,
        decreases total_samples - start,
    {
        let end = if chunk_size < total_samples - start {
            start + chunk_size
        } else {
            total_samples
        };
        let ghost r_before = ranges_int(r@);
        let ghost rest_before = window_plan_from(
            start as int,
            total_samples as int,
            chunk_size as int,
            overlap_size as int,
        );
        r.push((start, end));
        let next = if end == total_samples {
            end
        } else {
            end - overlap_size
        };
        proof {
            let rest_after = window_plan_from(
                next as int,
                total_samples as int,
                chunk_size as int,
                overlap_size as int,
            );
            assert(rest_before == seq![(start as int, end as int)] + rest_after);
            assert(ranges_int(r@) =~= r_before + seq![(start as int, end as int)]);
            assert(ranges_int(r@) + rest_after =~= (r_before + rest_before));
        }
        start = next;
    }
    proof {
        assert(window_plan_from(
            start as int,
            total_samples as int,
            chunk_size as int,
            overlap_size as int,
        ) == Seq::<(int, int)>::empty());
        assert(ranges_int(r@) =~= plan);
    }
    r
}

/// Every sample position in `[start, total)` lies inside some planned window:
/// the plan has no gaps.
pub proof fn lemma_window_plan_from_covers(start: int, total: int, chunk: int, overlap: int, x: int)
    requires
        0 < overlap < chunk,
        0 <= start <= x < total,
    ensures
        exists|k: int|
            0 <= k < window_plan_from(start, total, chunk, overlap).len()
                && (#[trigger] window_plan_from(start, total, chunk, overlap)[k]).0 <= x
                < window_plan_from(start, total, chunk, overlap)[k].1,
    decreases total - start,
{
    let plan = window_plan_from(start, total, chunk, overlap);
    let end = if start + chunk <= total {
        start + chunk
    } else {
        total
    };
    let next = if end == total {
        end
    } else {
        end - overlap
    };
    if x < end {
        assert(plan[0].0 <= x < plan[0].1);
    } else {
        lemma_window_plan_from_covers(next, total, chunk, overlap, x);
        let rest = window_plan_from(next, total, chunk, overlap);
        let k0 = choose|k: int| 0 <= k < rest.len() && (#[trigger] rest[k]).0 <= x < rest[k].1;
        assert(plan[k0 + 1] == rest[k0]);
        assert(plan[k0 + 1].0 <= x < plan[k0 + 1].1);
    }
}

/// Coverage: the union of the planned windows is exactly `[0, total)`
/// (every position is covered, and no window reaches outside the range).
pub proof fn lemma_window_plan_covers(total: int, chunk: int, overlap: int, x: int)
    requires
        0 < overlap < chunk,
        0 <= x < total,
    ensures
        exists|k: int|
            0 <= k < window_plan(total, chunk, overlap).len() && (#[trigger] window_plan(
                total,
                chunk,
                overlap,
            )[k]).0 <= x < window_plan(total, chunk, overlap)[k].1,
{
    lemma_window_plan_from_covers(0, total, chunk, overlap, x);
    let plan = window_plan_from(0, total, chunk, overlap);
    let k0 = choose|k: int| 0 <= k < plan.len() && (#[trigger] plan[k]).0 <= x < plan[k].1;
    assert(0 <= k0 < window_plan(total, chunk, overlap).len() && (window_plan(
        total,
        chunk,
        overlap,
    )[k0]).0 <= x < window_plan(total, chunk, overlap)[k0].1);
}

/// Shape of the plan from `start`: window starts grow strictly, every window
/// stays inside `[start, total]`, spans at most `chunk` samples, each window
/// but the last ends exactly `chunk` past its start and overlaps the next by
/// `overlap`, and the last window ends at `total`.
pub proof fn lemma_window_plan_from_structure(start: int, total: int, chunk: int, overlap: int)
    requires
        0 < overlap < chunk,
        0 <= start,
    ensures
        start >= total ==> window_plan_from(start, total, chunk, overlap).len() == 0,
        start < total ==> window_plan_from(start, total, chunk, overlap).len() > 0,
        start < total ==> window_plan_from(start, total, chunk, overlap)[0].0 == start,
        start < total ==> window_plan_from(start, total, chunk, overlap).last().1 == total,
        forall|k: int|
            0 <= k < window_plan_from(start, total, chunk, overlap).len() ==> start
                <= (#[trigger] window_plan_from(start, total, chunk, overlap)[k]).0
                < window_plan_from(start, total, chunk, overlap)[k].1 <= total,
        forall|k: int|
            0 <= k < window_plan_from(start, total, chunk, overlap).len() ==> (
            #[trigger] window_plan_from(start, total, chunk, overlap)[k]).1
                - window_plan_from(start, total, chunk, overlap)[k].0 <= chunk,
        forall|k: int|
            0 <= k < window_plan_from(start, total, chunk, overlap).len() - 1 ==> (
            #[trigger] window_plan_from(start, total, chunk, overlap)[k]).1
                == window_plan_from(start, total, chunk, overlap)[k].0 + chunk
                && window_plan_from(start, total, chunk, overlap)[k + 1].0 == window_plan_from(
                start,
                total,
                chunk,
                overlap,
            )[k].0 + chunk - overlap,
        forall|k: int|
            0 <= k < window_plan_from(start, total, chunk, overlap).len() - 1 ==> (
            #[trigger] window_plan_from(start, total, chunk, overlap)[k]).1 < total,
    decreases total - start,
{
    let plan = window_plan_from(start, total, chunk, overlap);
    if start < total {
        let end = if start + chunk <= total {
            start + chunk
        } else {
            total
        };
        let next = if end == total {
            end
        } else {
            end - overlap
        };
        lemma_window_plan_from_structure(next, total, chunk, overlap);
        let rest = window_plan_from(next, total, chunk, overlap);
        assert forall|k: int| 0 <= k < plan.len() implies start <= (#[trigger] plan[k]).0
            < plan[k].1 <= total by {
            if k > 0 {
                assert(plan[k] == rest[k - 1]);
            }
        }
        assert forall|k: int| 0 <= k < plan.len() implies (#[trigger] plan[k]).1 - plan[k].0
            <= chunk by {
            if k > 0 {
                assert(plan[k] == rest[k - 1]);
            }
        }
        if end == total {
            assert(rest.len() == 0);
            assert(plan.last() == plan[0]);
        } else {
            assert(plan.last() == rest.last());
        }
        assert forall|k: int| 0 <= k < plan.len() - 1 implies (#[trigger] plan[k]).1 < total by {
            if k == 0 {
                assert(rest.len() > 0);
                assert(end < total);
            } else {
                assert(plan[k] == rest[k - 1]);
            }
        }
        assert forall|k: int| 0 <= k < plan.len() - 1 implies (#[trigger] plan[k]).1 == plan[k].0
            + chunk && plan[k + 1].0 == plan[k].0 + chunk - overlap by {
            if k == 0 {
                assert(rest.len() > 0);
                assert(end < total);
                assert(plan[1] == rest[0]);
            } else {
                assert(plan[k] == rest[k - 1]);
                assert(plan[k + 1] == rest[k]);
            }
        }
    }
}

/// Shape of the whole plan (see `lemma_window_plan_from_structure`): the
/// first window starts at 0, the last ends at `total`, starts are strictly
/// increasing, and adjacent windows overlap by exactly `overlap` samples.
pub proof fn lemma_window_plan_structure(total: int, chunk: int, overlap: int)
    requires
        0 < overlap < chunk,
    ensures
        total <= 0 ==> window_plan(total, chunk, overlap).len() == 0,
        total > 0 ==> window_plan(total, chunk, overlap).len() > 0,
        total > 0 ==> window_plan(total, chunk, overlap)[0].0 == 0,
        total > 0 ==> window_plan(total, chunk, overlap).last().1 == total,
        forall|k: int|
            0 <= k < window_plan(total, chunk, overlap).len() ==> 0 <= (#[trigger] window_plan(
                total,
                chunk,
                overlap,
            )[k]).0 < window_plan(total, chunk, overlap)[k].1 <= total,
        forall|k: int|
            0 <= k < window_plan(total, chunk, overlap).len() ==> (#[trigger] window_plan(
                total,
                chunk,
                overlap,
            )[k]).1 - window_plan(total, chunk, overlap)[k].0 <= chunk,
        forall|k: int|
            0 <= k < window_plan(total, chunk, overlap).len() - 1 ==> (#[trigger] window_plan(
                total,
                chunk,
                overlap,
            )[k]).1 == window_plan(total, chunk, overlap)[k].0 + chunk && window_plan(
                total,
                chunk,
                overlap,
            )[k + 1].0 == window_plan(total, chunk, overlap)[k].0 + chunk - overlap,
        forall|k: int|
            0 <= k < window_plan(total, chunk, overlap).len() - 1 ==> (#[trigger] window_plan(
                total,
                chunk,
                overlap,
            )[k]).1 < total,
{
    lemma_window_plan_from_structure(0, total, chunk, overlap);
}

} // verus!

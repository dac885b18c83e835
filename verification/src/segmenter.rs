//! Syllable regions from per-frame voice activity.
//!
//! The energy analysis of an utterance marks each 10 ms frame as active or
//! silent. This module turns those marks into syllable regions: contiguous
//! runs of active frames become candidate regions (in sample indices),
//! candidates separated by less than the minimum gap are merged, and regions
//! shorter than the minimum duration are dropped.
use vstd::prelude::*;

verus! {

/// Analysis window size in samples (10ms at 16kHz).
pub const WINDOW_SIZE: usize = 160;

/// A detected syllable: start and end sample indices within the input.
#[derive(Debug, Clone, PartialEq, Eq, Structural)]
pub struct SyllableBounds {
    pub start: usize,
    pub end: usize,
}

/// Scan of the activity marks: the runs of active frames closed so far, as
/// (first frame, frame after the last), and the first frame of a run still open.
pub open spec fn run_scan(active: Seq<bool>) -> (Seq<(int, int)>, Option<int>)
    decreases active.len(),
{
    if active.len() == 0 {
        (seq![], None)
    } else {
        let (runs, open) = run_scan(active.drop_last());
        let i = active.len() - 1;
        if active.last() {
            match open {
                Some(s) => (runs, Some(s)),
                None => (runs, Some(i)),
            }
        } else {
            match open {
                Some(s) => (runs.push((s, i)), None),
                None => (runs, None),
            }
        }
    }
}

/// The maximal runs of active frames, as (first frame, frame after the last).
pub open spec fn activity_runs(active: Seq<bool>) -> Seq<(int, int)> {
    let (runs, open) = run_scan(active);
    match open {
        Some(s) => runs.push((s, active.len() as int)),
        None => runs,
    }
}

/// Frame runs converted to sample ranges.
pub open spec fn runs_in_samples(runs: Seq<(int, int)>, window: int) -> Seq<(int, int)> {
    Seq::new(runs.len(), |k: int| (runs[k].0 * window, runs[k].1 * window))
}

/// Merging candidates in order: a candidate that starts less than `min_gap`
/// samples after the end of the last merged region extends that region;
/// otherwise it starts a new one.
pub open spec fn merge_close(cands: Seq<(int, int)>, min_gap: int) -> Seq<(int, int)>
    decreases cands.len(),
{
    if cands.len() == 0 {
        seq![]
    } else {
        let merged = merge_close(cands.drop_last(), min_gap);
        let c = cands.last();
        if merged.len() == 0 {
            seq![c]
        } else if c.0 - merged.last().1 < min_gap {
            merged.update(merged.len() - 1, (merged.last().0, c.1))
        } else {
            merged.push(c)
        }
    }
}

/// The regions that last at least `min_duration` samples, in order.
pub open spec fn keep_long(regions: Seq<(int, int)>, min_duration: int) -> Seq<(int, int)>
    decreases regions.len(),
{
    if regions.len() == 0 {
        seq![]
    } else {
        let r = regions.last();
        keep_long(regions.drop_last(), min_duration) + (if r.1 - r.0 >= min_duration {
            seq![r]
        } else {
            seq![]
        })
    }
}

/// The syllable regions, as sample ranges, of a sequence of activity marks
/// with `window` samples per frame.
pub open spec fn segment_regions(
    active: Seq<bool>,
    window: int,
    min_gap: int,
    min_duration: int,
) -> Seq<(int, int)> {
    keep_long(merge_close(runs_in_samples(activity_runs(active), window), min_gap), min_duration)
}

/// The sample ranges of a list of bounds.
pub open spec fn bounds_ranges(b: Seq<SyllableBounds>) -> Seq<(int, int)> {
    Seq::new(b.len(), |k: int| (b[k].start as int, b[k].end as int))
}

/// Runs are ordered, non-empty, within the marks, and separated by at least one frame.
pub open spec fn runs_ordered(runs: Seq<(int, int)>, len: int) -> bool {
    &&& forall|k: int| 0 <= k < runs.len() ==> 0 <= (#[trigger] runs[k]).0 < runs[k].1 <= len
    &&& forall|k: int, l: int| 0 <= k < l < runs.len() ==> (#[trigger] runs[k]).1 < (
    #[trigger] runs[l]).0
}

proof fn lemma_run_scan_ordered(active: Seq<bool>)
    ensures
        ({
            let (runs, open) = run_scan(active);
            &&& runs_ordered(runs, active.len() as int)
            &&& forall|k: int| 0 <= k < runs.len() ==> (#[trigger] runs[k]).1 < active.len()
            &&& match open {
                Some(s) => 0 <= s < active.len() && forall|k: int|
                    0 <= k < runs.len() ==> (#[trigger] runs[k]).1 < s,
                None => true,
            }
        }),
    decreases active.len(),
{
    if active.len() > 0 {
        lemma_run_scan_ordered(active.drop_last());
    }
}

proof fn lemma_activity_runs_ordered(active: Seq<bool>)
    ensures
        runs_ordered(activity_runs(active), active.len() as int),
{
    lemma_run_scan_ordered(active);
}

proof fn lemma_mul_le(a: int, b: int, w: int)
    requires
        a <= b,
        w >= 0,
    ensures
        a * w <= b * w,
{
    assert(a * w <= b * w) by (nonlinear_arith)
        requires
            a <= b,
            w >= 0,
    ;
}

proof fn lemma_mul_lt(a: int, b: int, w: int)
    requires
        a < b,
        w > 0,
    ensures
        a * w < b * w,
{
    assert(a * w < b * w) by (nonlinear_arith)
        requires
            a < b,
            w > 0,
    ;
}

/// Sample ranges of ordered runs are ordered: each starts no earlier than
/// the previous one ends, and none passes `len * window`.
proof fn lemma_runs_in_samples_ordered(runs: Seq<(int, int)>, len: int, window: int)
    requires
        runs_ordered(runs, len),
        window >= 0,
    ensures
        ({
            let c = runs_in_samples(runs, window);
            &&& forall|k: int| 0 <= k < c.len() ==> 0 <= (#[trigger] c[k]).0 <= c[k].1 <= len * window
            &&& forall|k: int| 0 <= k < c.len() - 1 ==> (#[trigger] c[k]).1 <= c[k + 1].0
            &&& window > 0 ==> forall|k: int| 0 <= k < c.len() ==> (#[trigger] c[k]).0 < c[k].1
        }),
{
    let c = runs_in_samples(runs, window);
    assert forall|k: int| 0 <= k < c.len() implies 0 <= (#[trigger] c[k]).0 <= c[k].1 <= len
        * window by {
        lemma_mul_le(0, runs[k].0, window);
        lemma_mul_le(runs[k].0, runs[k].1, window);
        lemma_mul_le(runs[k].1, len, window);
    }
    assert forall|k: int| 0 <= k < c.len() - 1 implies (#[trigger] c[k]).1 <= c[k + 1].0 by {
        assert(runs[k].1 < runs[k + 1].0);
        lemma_mul_le(runs[k].1, runs[k + 1].0, window);
    }
    if window > 0 {
        assert forall|k: int| 0 <= k < c.len() implies (#[trigger] c[k]).0 < c[k].1 by {
            lemma_mul_lt(runs[k].0, runs[k].1, window);
        }
    }
}


/// Ranges are non-empty-or-empty intervals in order: each starts no later
/// than it ends, and no earlier than the previous one ends.
pub open spec fn ranges_ordered(c: Seq<(int, int)>) -> bool {
    &&& forall|k: int| 0 <= k < c.len() ==> (#[trigger] c[k]).0 <= c[k].1
    &&& forall|k: int| 0 <= k < c.len() - 1 ==> (#[trigger] c[k]).1 <= c[k + 1].0
}

/// Consecutive ranges are at least `gap` samples apart.
pub open spec fn ranges_spaced(c: Seq<(int, int)>, gap: int) -> bool {
    forall|k: int| 0 <= k < c.len() - 1 ==> (#[trigger] c[k]).1 + gap <= c[k + 1].0
}

proof fn lemma_merge_close_ordered(cands: Seq<(int, int)>, min_gap: int)
    requires
        ranges_ordered(cands),
        min_gap >= 0,
    ensures
        ({
            let m = merge_close(cands, min_gap);
            &&& ranges_ordered(m)
            &&& ranges_spaced(m, min_gap)
            &&& cands.len() > 0 ==> m.len() > 0 && m.last().1 == cands.last().1 && m[0].0
                == cands[0].0
            &&& cands.len() == 0 ==> m.len() == 0
            &&& forall|k: int| 0 <= k < m.len() ==> cands[0].0 <= (#[trigger] m[k]).0
            &&& forall|k: int| 0 <= k < m.len() ==> (#[trigger] m[k]).1 <= cands.last().1
            &&& (forall|k: int| 0 <= k < cands.len() ==> (#[trigger] cands[k]).0 < cands[k].1)
                ==> (forall|k: int| 0 <= k < m.len() ==> (#[trigger] m[k]).0 < m[k].1)
        }),
    decreases cands.len(),
{
    if cands.len() > 0 {
        let p = cands.drop_last();
        assert(ranges_ordered(p));
        lemma_merge_close_ordered(p, min_gap);
        if p.len() > 0 {
            assert(p.last().1 <= cands.last().0);
            assert(cands[0] == p[0]);
        }
    }
}

proof fn lemma_ranges_push(
    before: Seq<SyllableBounds>,
    runs: Seq<(int, int)>,
    window: int,
    start: usize,
    end: usize,
    first: int,
    last: int,
)
    requires
        bounds_ranges(before) == runs_in_samples(runs, window),
        start == first * window,
        end == last * window,
    ensures
        bounds_ranges(before.push(SyllableBounds { start, end })) == runs_in_samples(
            runs.push((first, last)),
            window,
        ),
{
    let a = bounds_ranges(before.push(SyllableBounds { start, end }));
    let b = runs_in_samples(runs.push((first, last)), window);
    let nb = before.push(SyllableBounds { start, end });
    assert(nb.len() == before.len() + 1);
    assert(bounds_ranges(before).len() == before.len());
    assert(runs_in_samples(runs, window).len() == runs.len());
    assert(before.len() == runs.len());
    assert(a.len() == nb.len());
    assert(b.len() == runs.len() + 1);
    assert(a.len() == b.len());
    assert forall|k: int| 0 <= k < a.len() implies a[k] == b[k] by {
        if k < before.len() {
            assert(bounds_ranges(before)[k] == runs_in_samples(runs, window)[k]);
        }
    }
    assert(a =~= b);
}

/// Step 1: the runs of active frames as candidate regions in sample indices.
fn activity_candidates(active: &[bool], window: usize) -> (c: Vec<SyllableBounds>)
    requires
        active@.len() * window <= usize::MAX,
    ensures
        bounds_ranges(c@) == runs_in_samples(activity_runs(active@), window as int),
{
    let n = active.len();
    let mut candidates: Vec<SyllableBounds> = Vec::new();
    let mut in_region = false;
    let mut region_start: usize = 0;
    let mut i: usize = 0;
    while i < n
        invariant
            n == active@.len(),
            n * window <= usize::MAX,
            i <= n,
            ({
                let (runs, open) = run_scan(active@.take(i as int));
                &&& bounds_ranges(candidates@) == runs_in_samples(runs, window as int)
                &&& in_region == open is Some
                &&& in_region ==> region_start == open->0 * window
                &&& in_region ==> open->0 < i
            }),
        decreases n - i,
    {
        proof {
            lemma_mul_le(i as int, n as int, window as int);
        }
        let ghost prev = run_scan(active@.take(i as int));
        assert(active@.take(i + 1).drop_last() =~= active@.take(i as int));
        let ghost before = candidates@;
        if active[i] && !in_region {
            region_start = i * window;
            in_region = true;
        } else if !active[i] && in_region {
            let region_end = i * window;
            candidates.push(SyllableBounds { start: region_start, end: region_end });
            in_region = false;
            proof {
                lemma_ranges_push(before, prev.0, window as int, region_start, region_end, prev.1->0, i as int);
            }
        }
        i += 1;
    }
    assert(active@.take(n as int) =~= active@);
    if in_region {
        proof {
            lemma_mul_le(n as int, n as int, window as int);
        }
        let region_end = n * window;
        let ghost prev = run_scan(active@);
        let ghost before = candidates@;
        candidates.push(SyllableBounds { start: region_start, end: region_end });
        proof {
            lemma_ranges_push(before, prev.0, window as int, region_start, region_end, prev.1->0, n as int);
        }
    }
    candidates
}

/// Step 2: merge candidates separated by fewer than `min_gap` samples.
fn merge_candidates(candidates: &Vec<SyllableBounds>, min_gap: usize) -> (m: Vec<SyllableBounds>)
    requires
        ranges_ordered(bounds_ranges(candidates@)),
    ensures
        bounds_ranges(m@) == merge_close(bounds_ranges(candidates@), min_gap as int),
{
    let ghost cands = bounds_ranges(candidates@);
    let mut merged: Vec<SyllableBounds> = Vec::new();
    let mut k: usize = 0;
    while k < candidates.len()
        invariant
            bounds_ranges(candidates@) == cands,
            ranges_ordered(cands),
            k <= candidates@.len(),
            bounds_ranges(merged@) == merge_close(cands.take(k as int), min_gap as int),
            k > 0 ==> merged@.len() > 0 && merged@.last().end == cands[k - 1].1,
            k == 0 ==> merged@.len() == 0,
        decreases candidates@.len() - k,
    {
        let c_start = candidates[k].start;
        let c_end = candidates[k].end;
        assert(cands.take(k + 1).drop_last() =~= cands.take(k as int));
        assert(cands.take(k + 1).last() == cands[k as int]);
        assert(cands[k as int] == (c_start as int, c_end as int));
        let ghost before = bounds_ranges(merged@);
        if merged.len() == 0 {
            merged.push(SyllableBounds { start: c_start, end: c_end });
            assert(bounds_ranges(merged@) =~= seq![(c_start as int, c_end as int)]);
        } else {
            let last = merged.len() - 1;
            let last_start = merged[last].start;
            let last_end = merged[last].end;
            assert(cands[k - 1].1 <= cands[k as int].0);
            if c_start - last_end < min_gap {
                merged.set(last, SyllableBounds { start: last_start, end: c_end });
                assert(bounds_ranges(merged@) =~= before.update(
                    before.len() - 1,
                    (last_start as int, c_end as int),
                ));
            } else {
                merged.push(SyllableBounds { start: c_start, end: c_end });
                assert(bounds_ranges(merged@) =~= before.push((c_start as int, c_end as int)));
            }
        }
        k += 1;
    }
    assert(cands.take(candidates@.len() as int) =~= cands);
    merged
}

/// Step 3: keep the regions that last at least `min_duration` samples.
fn drop_short(merged: &Vec<SyllableBounds>, min_duration: usize) -> (kept: Vec<SyllableBounds>)
    requires
        ranges_ordered(bounds_ranges(merged@)),
    ensures
        bounds_ranges(kept@) == keep_long(bounds_ranges(merged@), min_duration as int),
{
    let ghost regions = bounds_ranges(merged@);
    let mut kept: Vec<SyllableBounds> = Vec::new();
    let mut m: usize = 0;
    while m < merged.len()
        invariant
            bounds_ranges(merged@) == regions,
            ranges_ordered(regions),
            m <= merged@.len(),
            bounds_ranges(kept@) == keep_long(regions.take(m as int), min_duration as int),
        decreases merged@.len() - m,
    {
        let b_start = merged[m].start;
        let b_end = merged[m].end;
        assert(regions.take(m + 1).drop_last() =~= regions.take(m as int));
        assert(regions.take(m + 1).last() == regions[m as int]);
        assert(regions[m as int] == (b_start as int, b_end as int));
        let ghost before = bounds_ranges(kept@);
        if b_end - b_start >= min_duration {
            kept.push(SyllableBounds { start: b_start, end: b_end });
            assert(bounds_ranges(kept@) =~= before + seq![(b_start as int, b_end as int)]);
        } else {
            assert(before + Seq::<(int, int)>::empty() =~= before);
        }
        m += 1;
    }
    assert(regions.take(merged@.len() as int) =~= regions);
    kept
}

/// Segment the syllable regions out of per-frame activity marks.
///
/// `active[i]` tells whether frame `i` (samples `i * window ..
/// (i + 1) * window`) is above the energy threshold.
/// 1. Contiguous runs of active frames become candidate regions in sample indices.
/// 2. Candidates separated by fewer than `min_gap` samples are merged.
/// 3. Regions shorter than `min_duration` samples are dropped.
pub fn regions_from_activity(
    active: &[bool],
    window: usize,
    min_gap: usize,
    min_duration: usize,
) -> (r: Vec<SyllableBounds>)
    requires
        active@.len() * window <= usize::MAX,
    ensures
        bounds_ranges(r@) == segment_regions(
            active@,
            window as int,
            min_gap as int,
            min_duration as int,
        ),
{
    let candidates = activity_candidates(active, window);
    proof {
        lemma_activity_runs_ordered(active@);
        lemma_runs_in_samples_ordered(activity_runs(active@), active@.len() as int, window as int);
    }
    let merged = merge_candidates(&candidates, min_gap);
    proof {
        lemma_merge_close_ordered(bounds_ranges(candidates@), min_gap as int);
    }
    drop_short(&merged, min_duration)
}


// ---------------------------------------------------------------------------
// Laws
// ---------------------------------------------------------------------------

/// Every range ends, with `gap` samples to spare, before any later range starts.
pub open spec fn ranges_pairwise_spaced(c: Seq<(int, int)>, gap: int) -> bool {
    forall|i: int, j: int| 0 <= i < j < c.len() ==> (#[trigger] c[i]).1 + gap <= (#[trigger] c[j]).0
}

proof fn lemma_pairwise_spaced(m: Seq<(int, int)>, gap: int)
    requires
        ranges_ordered(m),
        ranges_spaced(m, gap),
        gap >= 0,
    ensures
        ranges_pairwise_spaced(m, gap),
    decreases m.len(),
{
    if m.len() > 1 {
        let p = m.drop_last();
        assert(ranges_ordered(p));
        assert(ranges_spaced(p, gap));
        lemma_pairwise_spaced(p, gap);
        assert forall|i: int, j: int| 0 <= i < j < m.len() implies (#[trigger] m[i]).1 + gap <= (
        #[trigger] m[j]).0 by {
            if j < m.len() - 1 {
                assert(p[i] == m[i] && p[j] == m[j]);
            } else if i < m.len() - 2 {
                assert(p[i] == m[i] && p[m.len() - 2] == m[m.len() - 2]);
                assert(m[m.len() - 2].0 <= m[m.len() - 2].1);
            }
        }
    }
}

proof fn lemma_keep_long(m: Seq<(int, int)>, min_duration: int, gap: int)
    requires
        ranges_pairwise_spaced(m, gap),
    ensures
        ({
            let k = keep_long(m, min_duration);
            &&& ranges_pairwise_spaced(k, gap)
            &&& forall|i: int| 0 <= i < k.len() ==> m.contains(#[trigger] k[i])
            &&& forall|i: int| 0 <= i < k.len() ==> (#[trigger] k[i]).1 - k[i].0 >= min_duration
        }),
    decreases m.len(),
{
    if m.len() > 0 {
        let p = m.drop_last();
        assert(ranges_pairwise_spaced(p, gap));
        lemma_keep_long(p, min_duration, gap);
        let kp = keep_long(p, min_duration);
        let k = keep_long(m, min_duration);
        let r = m.last();
        assert forall|i: int| 0 <= i < k.len() implies m.contains(#[trigger] k[i]) by {
            if i < kp.len() {
                let t = choose|t: int| 0 <= t < p.len() && p[t] == kp[i];
                assert(m[t] == k[i]);
            } else {
                assert(m[m.len() - 1] == k[i]);
            }
        }
        assert forall|i: int, j: int| 0 <= i < j < k.len() implies (#[trigger] k[i]).1 + gap <= (
        #[trigger] k[j]).0 by {
            if j < kp.len() {
                assert(k[i] == kp[i] && k[j] == kp[j]);
            } else {
                let t = choose|t: int| 0 <= t < p.len() && p[t] == kp[i];
                assert(k[i] == m[t]);
                assert(k[j] == m[m.len() - 1]);
            }
        }
    }
}

/// The segmenter's regions are well-formed: every region is non-empty,
/// lies within the analysed frames, lasts at least `min_duration` samples,
/// and is separated from the next region by at least `min_gap` samples.
pub proof fn law_regions_well_formed(
    active: Seq<bool>,
    window: int,
    min_gap: int,
    min_duration: int,
)
    requires
        window > 0,
        min_gap >= 0,
    ensures
        ({
            let r = segment_regions(active, window, min_gap, min_duration);
            &&& forall|k: int|
                0 <= k < r.len() ==> 0 <= (#[trigger] r[k]).0 < r[k].1 <= active.len() * window
            &&& forall|k: int| 0 <= k < r.len() ==> (#[trigger] r[k]).1 - r[k].0 >= min_duration
            &&& ranges_pairwise_spaced(r, min_gap)
        }),
{
    let runs = activity_runs(active);
    lemma_activity_runs_ordered(active);
    lemma_runs_in_samples_ordered(runs, active.len() as int, window);
    let cands = runs_in_samples(runs, window);
    lemma_merge_close_ordered(cands, min_gap);
    let m = merge_close(cands, min_gap);
    lemma_pairwise_spaced(m, min_gap);
    lemma_keep_long(m, min_duration, min_gap);
    let r = keep_long(m, min_duration);
    assert forall|k: int| 0 <= k < r.len() implies 0 <= (#[trigger] r[k]).0 < r[k].1 <= active.len()
        * window by {
        let t = choose|t: int| 0 <= t < m.len() && m[t] == r[k];
        assert(m[t] == r[k]);
        assert(cands.len() > 0);
        assert(cands[0].0 <= m[t].0);
        assert(m[t].1 <= cands.last().1);
        assert(cands.last() == cands[cands.len() - 1]);
    }
}

// ---------------------------------------------------------------------------
// Coverage of long syllables
// ---------------------------------------------------------------------------

/// Frames `p .. q` are all inactive.
pub open spec fn quiet(active: Seq<bool>, p: int, q: int) -> bool {
    forall|f: int| p <= f < q ==> !#[trigger] active[f]
}

/// Frame `f` lies in one of the runs.
pub open spec fn in_some_run(runs: Seq<(int, int)>, f: int) -> bool {
    exists|k: int| 0 <= k < runs.len() && (#[trigger] runs[k]).0 <= f < runs[k].1
}

proof fn lemma_quiet_prefix(active: Seq<bool>, p: int, q: int)
    requires
        active.len() > 0,
        0 <= p,
        q <= active.len() - 1,
        quiet(active.drop_last(), p, q),
    ensures
        quiet(active, p, q),
{
    assert forall|f: int| p <= f < q implies !#[trigger] active[f] by {
        assert(active.drop_last()[f] == active[f]);
    }
}

/// What the scan knows of the frames: every active frame read so far lies
/// in a closed run or after the start of the open one, and the frames
/// between consecutive runs, and after the last run up to the open one (or
/// to the end), are inactive.
proof fn lemma_run_scan_cover(active: Seq<bool>)
    ensures
        ({
            let (runs, open) = run_scan(active);
            &&& forall|f: int|
                0 <= f < active.len() && #[trigger] active[f] ==> in_some_run(runs, f) || (
                open matches Some(s) && s <= f)
            &&& forall|k: int|
                0 <= k < runs.len() - 1 ==> quiet(active, (#[trigger] runs[k]).1, runs[k + 1].0)
            &&& runs.len() > 0 ==> quiet(
                active,
                runs.last().1,
                match open {
                    Some(s) => s,
                    None => active.len() as int,
                },
            )
        }),
    decreases active.len(),
{
    if active.len() > 0 {
        let a = active.drop_last();
        lemma_run_scan_cover(a);
        lemma_run_scan_ordered(a);
        lemma_run_scan_ordered(active);
        let (runs, open) = run_scan(a);
        let (nruns, nopen) = run_scan(active);
        let i = active.len() - 1;
        assert forall|k: int| 0 <= k < runs.len() - 1 implies quiet(active, (#[trigger] runs[k]).1, runs[k + 1].0) by {
            assert(quiet(a, runs[k].1, runs[k + 1].0));
            assert(runs[k + 1].0 < runs[k + 1].1 && runs[k + 1].1 < a.len());
            lemma_quiet_prefix(active, runs[k].1, runs[k + 1].0);
        }
        if runs.len() > 0 {
            let e = match open {
                Some(s) => s,
                None => a.len() as int,
            };
            lemma_quiet_prefix(active, runs.last().1, e);
        }
        assert forall|f: int|
            0 <= f < active.len() && #[trigger] active[f] implies in_some_run(nruns, f) || (
            nopen matches Some(s) && s <= f) by {
            if f < i {
                assert(a[f] == active[f]);
                if in_some_run(runs, f) {
                    let k = choose|k: int| 0 <= k < runs.len() && (#[trigger] runs[k]).0 <= f < runs[k].1;
                    if !active.last() && open is Some {
                        assert(nruns[k] == runs[k]);
                    } else {
                        assert(nruns == runs);
                    }
                } else if !active.last() {
                    let s = open->0;
                    assert(nruns[runs.len() as int] == (s, i));
                }
            }
        }
        if !active.last() {
            match open {
                Some(s) => {
                    assert forall|k: int| 0 <= k < nruns.len() - 1 implies quiet(
                        active,
                        (#[trigger] nruns[k]).1,
                        nruns[k + 1].0,
                    ) by {
                        if k < runs.len() - 1 {
                            assert(nruns[k] == runs[k] && nruns[k + 1] == runs[k + 1]);
                        } else {
                            assert(nruns[k] == runs.last());
                            assert(nruns[k + 1] == (s, i));
                        }
                    }
                    assert(quiet(active, nruns.last().1, active.len() as int));
                },
                None => {
                    if runs.len() > 0 {
                        assert(quiet(active, runs.last().1, active.len() as int));
                    }
                },
            }
        }
    }
}

proof fn lemma_activity_runs_cover(active: Seq<bool>)
    ensures
        ({
            let runs = activity_runs(active);
            &&& forall|f: int| 0 <= f < active.len() && #[trigger] active[f] ==> in_some_run(runs, f)
            &&& forall|k: int|
                0 <= k < runs.len() - 1 ==> quiet(active, (#[trigger] runs[k]).1, runs[k + 1].0)
        }),
{
    lemma_run_scan_cover(active);
    lemma_run_scan_ordered(active);
    let (runs, open) = run_scan(active);
    let r = activity_runs(active);
    if let Some(s) = open {
        let n = active.len() as int;
        assert(r == runs.push((s, n)));
        assert forall|f: int| 0 <= f < active.len() && #[trigger] active[f] implies in_some_run(r, f) by {
            if in_some_run(runs, f) {
                let k = choose|k: int| 0 <= k < runs.len() && (#[trigger] runs[k]).0 <= f < runs[k].1;
                assert(r[k] == runs[k]);
            } else {
                assert(r[runs.len() as int] == (s, n));
            }
        }
        assert forall|k: int| 0 <= k < r.len() - 1 implies quiet(active, (#[trigger] r[k]).1, r[k + 1].0) by {
            if k < runs.len() - 1 {
                assert(r[k] == runs[k] && r[k + 1] == runs[k + 1]);
            } else {
                assert(r[k] == runs.last());
                assert(r[k + 1] == (s, n));
            }
        }
    }
}

/// Candidates `kx ..= ky` follow each other with gaps below `min_gap`.
pub open spec fn chained(cands: Seq<(int, int)>, kx: int, ky: int, min_gap: int) -> bool {
    forall|k: int| kx <= k < ky ==> (#[trigger] cands[k + 1]).0 - cands[k].1 < min_gap
}

#[verifier::spinoff_prover]
#[verifier::rlimit(40)]
proof fn lemma_merge_covers_chain(cands: Seq<(int, int)>, min_gap: int, kx: int, ky: int)
    requires
        ranges_ordered(cands),
        min_gap >= 0,
        0 <= kx <= ky < cands.len(),
        chained(cands, kx, ky, min_gap),
    ensures
        exists|t: int|
            0 <= t < merge_close(cands, min_gap).len() && (#[trigger] merge_close(cands, min_gap)[t]).0
                <= cands[kx].0 && cands[ky].1 <= merge_close(cands, min_gap)[t].1,
    decreases cands.len(),
{
    let n = cands.len() as int;
    let p = cands.drop_last();
    let c = cands.last();
    let m = merge_close(cands, min_gap);
    assert(ranges_ordered(p));
    lemma_merge_close_ordered(p, min_gap);
    let mp = merge_close(p, min_gap);
    if n > 1 {
        assert(p.last() == cands[n - 2]);
        assert(p.last().1 <= c.0);
    }
    assert(c.0 <= c.1);
    if ky < n - 1 {
        assert forall|k: int| kx <= k < ky implies (#[trigger] p[k + 1]).0 - p[k].1 < min_gap by {
            assert(p[k + 1] == cands[k + 1] && p[k] == cands[k]);
            assert(cands[k + 1].0 - cands[k].1 < min_gap);
        }
        lemma_merge_covers_chain(p, min_gap, kx, ky);
        let t = choose|t: int| 0 <= t < mp.len() && (#[trigger] mp[t]).0 <= p[kx].0 && p[ky].1 <= mp[t].1;
        assert(p[kx] == cands[kx] && p[ky] == cands[ky]);
        if c.0 - mp.last().1 < min_gap {
            if t == mp.len() - 1 {
                assert(m[t] == (mp.last().0, c.1));
            } else {
                assert(m[t] == mp[t]);
            }
        } else {
            assert(m[t] == mp[t]);
        }
    } else if kx == ky {
        if mp.len() == 0 {
            assert(m[0] == c);
        } else if c.0 - mp.last().1 < min_gap {
            assert(mp.last().0 <= mp.last().1);
            assert(m[mp.len() - 1] == (mp.last().0, c.1));
        } else {
            assert(m[mp.len() as int] == c);
        }
    } else {
        assert forall|k: int| kx <= k < ky - 1 implies (#[trigger] p[k + 1]).0 - p[k].1 < min_gap by {
            assert(p[k + 1] == cands[k + 1] && p[k] == cands[k]);
            assert(cands[k + 1].0 - cands[k].1 < min_gap);
        }
        lemma_merge_covers_chain(p, min_gap, kx, ky - 1);
        let t = choose|t: int| 0 <= t < mp.len() && (#[trigger] mp[t]).0 <= p[kx].0 && p[ky - 1].1 <= mp[t].1;
        assert(p[kx] == cands[kx] && p[ky - 1] == cands[ky - 1]);
        assert(cands[ky].0 - cands[ky - 1].1 < min_gap);
        lemma_pairwise_spaced(mp, min_gap);
        if t < mp.len() - 1 {
            assert(mp[t].1 + min_gap <= mp[mp.len() - 1].0);
            assert(mp[mp.len() - 1].0 <= mp[mp.len() - 1].1);
            assert(false);
        }
        assert(m[t] == (mp.last().0, c.1));
    }
}

proof fn lemma_keep_long_keeps(m: Seq<(int, int)>, min_duration: int, t: int)
    requires
        0 <= t < m.len(),
        m[t].1 - m[t].0 >= min_duration,
    ensures
        keep_long(m, min_duration).contains(m[t]),
    decreases m.len(),
{
    let p = m.drop_last();
    let kp = keep_long(p, min_duration);
    if t < m.len() - 1 {
        assert(p[t] == m[t]);
        lemma_keep_long_keeps(p, min_duration, t);
        let i = choose|i: int| 0 <= i < kp.len() && kp[i] == m[t];
        assert(keep_long(m, min_duration)[i] == m[t]);
    } else {
        assert(keep_long(m, min_duration)[kp.len() as int] == m[t]);
    }
}

proof fn lemma_quiet_gaps_chain(
    active: Seq<bool>,
    window: int,
    min_gap: int,
    x: int,
    y: int,
    kx: int,
    ky: int,
)
    requires
        window > 0,
        runs_ordered(activity_runs(active), active.len() as int),
        forall|k: int|
            0 <= k < activity_runs(active).len() - 1 ==> quiet(
                active,
                (#[trigger] activity_runs(active)[k]).1,
                activity_runs(active)[k + 1].0,
            ),
        0 <= kx <= ky < activity_runs(active).len(),
        activity_runs(active)[kx].0 <= x < activity_runs(active)[kx].1,
        activity_runs(active)[ky].0 <= y < activity_runs(active)[ky].1,
        forall|p: int, q: int|
            x < p < q <= y && #[trigger] quiet(active, p, q) ==> (q - p) * window < min_gap,
    ensures
        chained(runs_in_samples(activity_runs(active), window), kx, ky, min_gap),
{
    let runs = activity_runs(active);
    let cands = runs_in_samples(runs, window);
    assert forall|k: int| kx <= k < ky implies (#[trigger] cands[k + 1]).0 - cands[k].1 < min_gap by {
        let p = runs[k].1;
        let q = runs[k + 1].0;
        assert(quiet(active, p, q));
        if k > kx {
            assert(runs[kx].1 < runs[k].0);
        }
        if k + 1 < ky {
            assert(runs[k + 1].1 < runs[ky].0);
        }
        assert(x < p && p < q && q <= y);
        assert((q - p) * window < min_gap);
        assert(q * window - p * window == (q - p) * window) by (nonlinear_arith);
    }
}

/// No syllable long enough is lost: when frames `x` and `y` are active,
/// every stretch of inactive frames between them is shorter than `min_gap`
/// samples, and `x ..= y` spans at least `min_duration` samples, some
/// returned region covers all of frames `x ..= y`. Merging across short
/// gaps comes before the duration check, so two runs too short on their own
/// still make a syllable together.
#[verifier::spinoff_prover]
pub proof fn law_regions_cover_long_syllables(
    active: Seq<bool>,
    window: int,
    min_gap: int,
    min_duration: int,
    x: int,
    y: int,
)
    requires
        window > 0,
        min_gap >= 0,
        0 <= x <= y < active.len(),
        active[x],
        active[y],
        forall|p: int, q: int|
            x < p < q <= y && #[trigger] quiet(active, p, q) ==> (q - p) * window < min_gap,
        (y + 1 - x) * window >= min_duration,
    ensures
        exists|k: int|
            0 <= k < segment_regions(active, window, min_gap, min_duration).len() && (
            #[trigger] segment_regions(active, window, min_gap, min_duration)[k]).0 <= x * window
                && (y + 1) * window <= segment_regions(active, window, min_gap, min_duration)[k].1,
{
    let runs = activity_runs(active);
    let n = active.len() as int;
    let cands = runs_in_samples(runs, window);
    assert(runs_ordered(runs, n) && in_some_run(runs, x) && in_some_run(runs, y) && forall|k: int|
        0 <= k < runs.len() - 1 ==> quiet(active, (#[trigger] runs[k]).1, runs[k + 1].0)) by {
        lemma_activity_runs_ordered(active);
        lemma_activity_runs_cover(active);
    }
    assert(ranges_ordered(cands)) by {
        lemma_runs_in_samples_ordered(runs, n, window);
    }
    let kx = choose|k: int| 0 <= k < runs.len() && (#[trigger] runs[k]).0 <= x < runs[k].1;
    let ky = choose|k: int| 0 <= k < runs.len() && (#[trigger] runs[k]).0 <= y < runs[k].1;
    assert(kx <= ky) by {
        if ky < kx {
            assert(runs[ky].1 < runs[kx].0);
        }
    }
    lemma_quiet_gaps_chain(active, window, min_gap, x, y, kx, ky);
    let m = merge_close(cands, min_gap);
    assert(exists|t: int| 0 <= t < m.len() && (#[trigger] m[t]).0 <= cands[kx].0 && cands[ky].1 <= m[t].1) by {
        lemma_merge_covers_chain(cands, min_gap, kx, ky);
    }
    let t = choose|t: int| 0 <= t < m.len() && (#[trigger] m[t]).0 <= cands[kx].0 && cands[ky].1 <= m[t].1;
    assert(m[t].0 <= x * window && (y + 1) * window <= m[t].1) by {
        lemma_mul_le(runs[kx].0, x, window);
        lemma_mul_le(y + 1, runs[ky].1, window);
    }
    assert(m[t].1 - m[t].0 >= min_duration) by {
        assert((y + 1) * window - x * window == (y + 1 - x) * window) by (nonlinear_arith);
    }
    let r = keep_long(m, min_duration);
    assert(r.contains(m[t])) by {
        lemma_keep_long_keeps(m, min_duration, t);
    }
    let k = choose|k: int| 0 <= k < r.len() && r[k] == m[t];
    assert(r == segment_regions(active, window, min_gap, min_duration));
    assert(segment_regions(active, window, min_gap, min_duration)[k] == m[t]);
}

// ---------------------------------------------------------------------------
// Regions are chains of runs
// ---------------------------------------------------------------------------

/// Frames `p .. q` are all active.
pub open spec fn loud(active: Seq<bool>, p: int, q: int) -> bool {
    forall|f: int| p <= f < q ==> #[trigger] active[f]
}

proof fn lemma_run_scan_active(active: Seq<bool>)
    ensures
        ({
            let (runs, open) = run_scan(active);
            &&& forall|k: int| 0 <= k < runs.len() ==> loud(active, (#[trigger] runs[k]).0, runs[k].1)
            &&& open matches Some(s) ==> loud(active, s, active.len() as int)
        }),
    decreases active.len(),
{
    if active.len() > 0 {
        let a = active.drop_last();
        lemma_run_scan_active(a);
        lemma_run_scan_ordered(a);
        let (runs, open) = run_scan(a);
        let (nruns, nopen) = run_scan(active);
        assert forall|p: int, q: int| 0 <= p && q <= a.len() && loud(a, p, q) implies loud(active, p, q) by {
            assert forall|f: int| p <= f < q implies #[trigger] active[f] by {
                assert(a[f] == active[f]);
            }
        }
        assert forall|k: int| 0 <= k < nruns.len() implies loud(active, (#[trigger] nruns[k]).0, nruns[k].1) by {
            if k < runs.len() {
                assert(nruns[k] == runs[k]);
                assert(loud(a, runs[k].0, runs[k].1));
            } else {
                let s0 = open->0;
                assert(loud(a, s0, a.len() as int));
            }
        }
        if let Some(s0) = nopen {
            if let Some(s1) = open {
                assert(loud(a, s1, a.len() as int));
            }
        }
    }
}

proof fn lemma_activity_runs_active(active: Seq<bool>)
    ensures
        forall|k: int|
            0 <= k < activity_runs(active).len() ==> loud(
                active,
                (#[trigger] activity_runs(active)[k]).0,
                activity_runs(active)[k].1,
            ),
{
    lemma_run_scan_active(active);
    let (runs, open) = run_scan(active);
    let r = activity_runs(active);
    assert forall|k: int| 0 <= k < r.len() implies loud(active, (#[trigger] r[k]).0, r[k].1) by {
        if k < runs.len() {
            assert(r[k] == runs[k]);
        }
    }
}

/// Region `r` is candidates `i ..= j` chained by short gaps.
pub open spec fn merged_from(cands: Seq<(int, int)>, min_gap: int, r: (int, int), i: int, j: int) -> bool {
    0 <= i <= j < cands.len() && r == (cands[i].0, cands[j].1) && chained(cands, i, j, min_gap)
}

proof fn lemma_chained_prefix(cands: Seq<(int, int)>, min_gap: int, i: int, j: int)
    requires
        cands.len() > 0,
        merged_from(cands.drop_last(), min_gap, (cands[i].0, cands[j].1), i, j),
    ensures
        merged_from(cands, min_gap, (cands[i].0, cands[j].1), i, j),
{
    let p = cands.drop_last();
    assert forall|k: int| i <= k < j implies (#[trigger] cands[k + 1]).0 - cands[k].1 < min_gap by {
        assert(p[k + 1] == cands[k + 1] && p[k] == cands[k]);
        assert((p[k + 1]).0 - p[k].1 < min_gap);
    }
}

/// Each merged region is a chain of candidates, and the last one ends with
/// the last candidate.
proof fn lemma_merge_sound(cands: Seq<(int, int)>, min_gap: int) -> (froms: Seq<(int, int)>)
    ensures
        froms.len() == merge_close(cands, min_gap).len(),
        forall|t: int|
            0 <= t < froms.len() ==> merged_from(
                cands,
                min_gap,
                #[trigger] merge_close(cands, min_gap)[t],
                froms[t].0,
                froms[t].1,
            ),
        froms.len() > 0 ==> froms.last().1 == cands.len() - 1,
    decreases cands.len(),
{
    if cands.len() == 0 {
        seq![]
    } else {
        let n = cands.len() as int;
        let p = cands.drop_last();
        let c = cands.last();
        let fp = lemma_merge_sound(p, min_gap);
        let mp = merge_close(p, min_gap);
        let m = merge_close(cands, min_gap);
        assert forall|t: int| 0 <= t < fp.len() implies merged_from(cands, min_gap, #[trigger] mp[t], fp[t].0, fp[t].1) by {
            assert(merged_from(p, min_gap, mp[t], fp[t].0, fp[t].1));
            assert(p[fp[t].0] == cands[fp[t].0] && p[fp[t].1] == cands[fp[t].1]);
            lemma_chained_prefix(cands, min_gap, fp[t].0, fp[t].1);
        }
        if mp.len() == 0 {
            let f = seq![(n - 1, n - 1)];
            assert(m[0] == cands[n - 1]);
            assert(merged_from(cands, min_gap, m[0], n - 1, n - 1));
            f
        } else if c.0 - mp.last().1 < min_gap {
            let l = mp.len() - 1;
            let f = fp.update(l, (fp[l].0, n - 1));
            assert forall|t: int| 0 <= t < f.len() implies merged_from(cands, min_gap, #[trigger] m[t], f[t].0, f[t].1) by {
                if t < l {
                    assert(m[t] == mp[t]);
                    assert(merged_from(cands, min_gap, mp[t], fp[t].0, fp[t].1));
                } else {
                    assert(merged_from(cands, min_gap, mp[l], fp[l].0, fp[l].1));
                    assert(fp[l].1 == n - 2);
                    assert(m[t] == (mp[l].0, c.1));
                    assert forall|k: int| fp[l].0 <= k < n - 1 implies (#[trigger] cands[k + 1]).0 - cands[k].1 < min_gap by {
                        if k < n - 2 {
                            assert(chained(cands, fp[l].0, n - 2, min_gap));
                        } else {
                            assert(mp[l].1 == cands[n - 2].1);
                        }
                    }
                }
            }
            f
        } else {
            let f = fp.push((n - 1, n - 1));
            assert forall|t: int| 0 <= t < f.len() implies merged_from(cands, min_gap, #[trigger] m[t], f[t].0, f[t].1) by {
                if t < fp.len() {
                    assert(m[t] == mp[t]);
                    assert(merged_from(cands, min_gap, mp[t], fp[t].0, fp[t].1));
                } else {
                    assert(m[t] == c);
                }
            }
            f
        }
    }
}

proof fn lemma_last_run_before(runs: Seq<(int, int)>, i: int, j: int, p: int) -> (k: int)
    requires
        0 <= i <= j < runs.len(),
        runs[i].0 <= p,
    ensures
        i <= k <= j,
        runs[k].0 <= p,
        k < j ==> runs[k + 1].0 > p,
    decreases j - i,
{
    if runs[j].0 <= p {
        j
    } else {
        lemma_last_run_before(runs, i, j - 1, p)
    }
}

proof fn lemma_keep_long_from(m: Seq<(int, int)>, min_duration: int, k: int) -> (t: int)
    requires
        0 <= k < keep_long(m, min_duration).len(),
    ensures
        0 <= t < m.len(),
        m[t] == keep_long(m, min_duration)[k],
    decreases m.len(),
{
    let p = m.drop_last();
    let kp = keep_long(p, min_duration);
    if k < kp.len() {
        let t = lemma_keep_long_from(p, min_duration, k);
        assert(m[t] == p[t]);
        t
    } else {
        (m.len() - 1) as int
    }
}

/// Every region is a chain of active frames: it runs from the start of an
/// active frame `a` to the end of an active frame `b - 1`, and every
/// stretch of inactive frames inside it is shorter than `min_gap` samples.
/// Returns `(a, b)`.
#[verifier::spinoff_prover]
pub proof fn law_regions_are_chains(
    active: Seq<bool>,
    window: int,
    min_gap: int,
    min_duration: int,
    k: int,
) -> (ab: (int, int))
    requires
        window > 0,
        min_gap >= 0,
        0 <= k < segment_regions(active, window, min_gap, min_duration).len(),
    ensures
        ({
            let r = segment_regions(active, window, min_gap, min_duration)[k];
            let (a, b) = ab;
            &&& 0 <= a < b <= active.len()
            &&& r == (a * window, b * window)
            &&& active[a]
            &&& active[b - 1]
            &&& forall|p: int, q: int|
                a <= p < q <= b && #[trigger] quiet(active, p, q) ==> (q - p) * window < min_gap
        }),
{
    let runs = activity_runs(active);
    let n = active.len() as int;
    let cands = runs_in_samples(runs, window);
    assert(runs_ordered(runs, n) && forall|k: int|
        0 <= k < runs.len() ==> loud(active, (#[trigger] runs[k]).0, runs[k].1)) by {
        lemma_activity_runs_ordered(active);
        lemma_activity_runs_active(active);
    }
    let m = merge_close(cands, min_gap);
    let froms = lemma_merge_sound(cands, min_gap);
    let t = lemma_keep_long_from(m, min_duration, k);
    assert(keep_long(m, min_duration) == segment_regions(active, window, min_gap, min_duration));
    assert(merged_from(cands, min_gap, m[t], froms[t].0, froms[t].1));
    let i = froms[t].0;
    let j = froms[t].1;
    let a = runs[i].0;
    let b = runs[j].1;
    assert(loud(active, runs[i].0, runs[i].1) && loud(active, runs[j].0, runs[j].1));
    assert(active[a]);
    assert(active[b - 1]);
    if i < j {
        assert(runs[i].1 < runs[j].0);
    }
    assert forall|p: int, q: int| a <= p < q <= b && #[trigger] quiet(active, p, q) implies (q - p)
        * window < min_gap by {
        let kk = lemma_last_run_before(runs, i, j, p);
        assert(!active[p]);
        assert(loud(active, runs[kk].0, runs[kk].1));
        if p < runs[kk].1 {
            assert(active[p]);
        }
        if kk == j {
            assert(p < b);
            assert(active[p]);
        }
        assert(kk < j);
        let g0 = runs[kk].1;
        let g1 = runs[kk + 1].0;
        assert(loud(active, runs[kk + 1].0, runs[kk + 1].1));
        assert(active[g1]);
        if q > g1 {
            assert(!active[g1]);
        }
        assert(q - p <= g1 - g0);
        assert(cands[kk + 1].0 - cands[kk].1 < min_gap);
        assert(cands[kk + 1].0 - cands[kk].1 == (g1 - g0) * window) by (nonlinear_arith)
            requires
                cands[kk + 1].0 == g1 * window,
                cands[kk].1 == g0 * window,
        ;
        lemma_mul_le(q - p, g1 - g0, window);
    }
    (a, b)
}
} // verus!

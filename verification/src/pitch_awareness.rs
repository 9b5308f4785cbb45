use vstd::prelude::*;

verus! {

/// Which goal a broadcast frame seems to look towards.
#[derive(Debug, Clone, Copy, PartialEq, Eq, Structural)]
pub enum GoalSideHint {
    Left,
    Right,
    Unknown,
}

impl GoalSideHint {
    /// Display text of the hint.
    pub fn label(&self) -> (r: &'static str)
        ensures
            *self == GoalSideHint::Left ==> r@ == "Left"@,
            *self == GoalSideHint::Right ==> r@ == "Right"@,
            *self == GoalSideHint::Unknown ==> r@ == "Unknown"@,
    {
        match self {
            GoalSideHint::Left => "Left",
            GoalSideHint::Right => "Right",
            GoalSideHint::Unknown => "Unknown",
        }
    }

    /// Whether two frames may show the same end of the pitch: the hints agree
    /// or one of them is unknown.
    pub fn compatible(&self, other: &GoalSideHint) -> (r: bool)
        ensures
            r == (*self == GoalSideHint::Unknown || *other == GoalSideHint::Unknown || *self == *other),
    {
        match (self, other) {
            (GoalSideHint::Unknown, _) => true,
            (_, GoalSideHint::Unknown) => true,
            (GoalSideHint::Left, GoalSideHint::Left) => true,
            (GoalSideHint::Right, GoalSideHint::Right) => true,
            _ => false,
        }
    }
}

/// Grass colour: clearly green and bright enough.
pub open spec fn green_rgb(r: u8, g: u8, b: u8) -> bool {
    g > 60 && g > r + 12 && g > b + 8
}

/// Line colour: bright and close to grey.
pub open spec fn line_rgb(r: u8, g: u8, b: u8) -> bool {
    r > 165 && g > 165 && b > 165 && -28 < r - g < 28 && -28 < g - b < 28
}

/// Grass colour of a pixel.
pub open spec fn spec_is_pitch_green(p: [u8; 3]) -> bool {
    green_rgb(p[0], p[1], p[2])
}

/// Line colour of a pixel.
pub open spec fn spec_is_pitch_line(p: [u8; 3]) -> bool {
    line_rgb(p[0], p[1], p[2])
}

/// A pixel counts as grass exactly when its green channel is above 60 and
/// exceeds red by more than 12 and blue by more than 8; so raising green
/// never loses grass, and raising red or blue never gains it.
pub proof fn lemma_grass_pixels(p: [u8; 3], q: [u8; 3])
    ensures
        spec_is_pitch_green(p) <==> (p[1] > 60 && p[1] > p[0] + 12 && p[1] > p[2] + 8),
        spec_is_pitch_green(p) ==> p[1] > p[2] && p[1] > p[0],
        (spec_is_pitch_green(p) && q[0] <= p[0] && q[1] >= p[1] && q[2] <= p[2]) ==> spec_is_pitch_green(q),
{
}

/// A pixel counts as a painted line exactly when all three channels are
/// above 165 and red is within 27 of green and green within 27 of blue.
pub proof fn lemma_line_pixels(p: [u8; 3])
    ensures
        spec_is_pitch_line(p) <==> (p[0] > 165 && p[1] > 165 && p[2] > 165
            && p[0] < p[1] + 28 && p[1] < p[0] + 28 && p[1] < p[2] + 28 && p[2] < p[1] + 28),
{
}

/// Whether a pixel looks like grass.
pub fn is_pitch_green(pixel: [u8; 3]) -> (r: bool)
    ensures
        r == spec_is_pitch_green(pixel),
{
    let r = pixel[0] as i32;
    let g = pixel[1] as i32;
    let b = pixel[2] as i32;
    g > 60 && g > r + 12 && g > b + 8
}

/// Whether a pixel looks like a painted line.
pub fn is_pitch_line(pixel: [u8; 3]) -> (r: bool)
    ensures
        r == spec_is_pitch_line(pixel),
{
    let r = pixel[0] as i32;
    let g = pixel[1] as i32;
    let b = pixel[2] as i32;
    r > 165 && g > 165 && b > 165 && -28 < r - g && r - g < 28 && -28 < g - b && g - b < 28
}

/// Frame `i` lies within `radius` frames of sample frame `s`.
pub open spec fn near(s: usize, i: int, radius: usize) -> bool {
    s - radius <= i <= s + radius
}

/// Frame `i` lies within `radius` frames of some kept sample.
pub open spec fn near_any(sampled: Seq<usize>, i: int, radius: usize) -> bool {
    exists|j: int| 0 <= j < sampled.len() && near(#[trigger] sampled[j], i, radius)
}

/// Widens kept sample frames to every frame within `radius` of one of them,
/// returning the frame indices below `full_len`, in increasing order.
pub fn expand_sampled_frame_indices(sampled_indices: &Vec<usize>, full_len: usize, radius: usize) -> (r: Vec<usize>)
    requires
        forall|j: int| 0 <= j < sampled_indices@.len() ==> #[trigger] sampled_indices@[j] + radius <= usize::MAX,
    ensures
        forall|a: int, b: int| 0 <= a < b < r@.len() ==> r@[a] < r@[b],
        forall|a: int| 0 <= a < r@.len() ==> #[trigger] r@[a] < full_len && near_any(sampled_indices@, r@[a] as int, radius),
        forall|i: int| 0 <= i < full_len && near_any(sampled_indices@, i, radius) ==> r@.contains(i as usize),
{
    let mut keep: Vec<bool> = Vec::new();
    let mut i: usize = 0;
    while i < full_len
        invariant
            i <= full_len,
            keep@.len() == i,
            forall|k: int| 0 <= k < i ==> !keep@[k],
        decreases full_len - i,
    {
        keep.push(false);
        i = i + 1;
    }
    let mut j: usize = 0;
    while j < sampled_indices.len()
        invariant
            j <= sampled_indices.len(),
            keep@.len() == full_len,
            forall|j2: int| 0 <= j2 < sampled_indices@.len() ==> #[trigger] sampled_indices@[j2] + radius <= usize::MAX,
            forall|k: int| 0 <= k < full_len ==> (#[trigger] keep@[k] <==> near_any(sampled_indices@.take(j as int), k, radius)),
        decreases sampled_indices.len() - j,
    {
        let idx = sampled_indices[j];
        let start = if idx >= radius { idx - radius } else { 0 };
        let hi = idx + radius;
        let last = if full_len == 0 { 0 } else { full_len - 1 };
        let end = if hi <= last { hi } else { last };
        let ghost before = keep@;
        if full_len > 0 {
            let mut k: usize = start;
            while k <= end
                invariant
                    start <= k,
                    k <= end + 1 || k == start,
                    end < full_len,
                    end < usize::MAX,
                    keep@.len() == full_len,
                    forall|m: int| 0 <= m < full_len ==> #[trigger] keep@[m] == (before[m] || (start <= m < k)),
                decreases end + 1 - k,
            {
                keep.set(k, true);
                k = k + 1;
            }
        }
        proof {
            let t1 = sampled_indices@.take(j + 1);
            assert(t1 =~= sampled_indices@.take(j as int).push(idx));
            assert forall|m: int| 0 <= m < full_len implies (#[trigger] keep@[m] <==> near_any(t1, m, radius)) by {
                if near_any(t1, m, radius) {
                    let w = choose|w: int| 0 <= w < t1.len() && near(#[trigger] t1[w], m, radius);
                    if w < j {
                        assert(sampled_indices@.take(j as int)[w] == t1[w]);
                    }
                }
                if near_any(sampled_indices@.take(j as int), m, radius) {
                    let w = choose|w: int| 0 <= w < j && near(#[trigger] sampled_indices@.take(j as int)[w], m, radius);
                    assert(t1[w] == sampled_indices@.take(j as int)[w]);
                }
                if start <= m <= end {
                    assert(near(t1[j as int], m, radius));
                }
            }
        }
        j = j + 1;
    }
    assert(sampled_indices@.take(sampled_indices.len() as int) =~= sampled_indices@);
    let mut out: Vec<usize> = Vec::new();
    let mut i: usize = 0;
    while i < full_len
        invariant
            i <= full_len,
            keep@.len() == full_len,
            forall|k: int| 0 <= k < full_len ==> (#[trigger] keep@[k] <==> near_any(sampled_indices@, k, radius)),
            forall|a: int, b: int| 0 <= a < b < out@.len() ==> out@[a] < out@[b],
            forall|a: int| 0 <= a < out@.len() ==> #[trigger] out@[a] < i && keep@[out@[a] as int],
            forall|k: int| 0 <= k < i && keep@[k] ==> out@.contains(k as usize),
        decreases full_len - i,
    {
        if keep[i] {
            let ghost o = out@;
            out.push(i);
            assert forall|k: int| 0 <= k < i + 1 && keep@[k] implies out@.contains(k as usize) by {
                if k < i {
                    let w = choose|w: int| 0 <= w < o.len() && o[w] == k as usize;
                    assert(out@[w] == o[w]);
                } else {
                    assert(out@[o.len() as int] == i);
                }
            }
        }
        i = i + 1;
    }
    assert forall|k: int| 0 <= k < full_len && near_any(sampled_indices@, k, radius) implies out@.contains(k as usize) by {
        assert(keep@[k]);
    }
    out
}

/// Picks every `sample_every_n`-th frame (at least every frame) out of
/// `frame_count`, returning the chosen frame indices: entry `k` is frame
/// `k * step`, and the list covers all frames up to the last step.
pub fn build_detection_sampling_plan(frame_count: usize, sample_every_n: usize) -> (r: Vec<usize>)
    ensures
        ({
            let step = if sample_every_n >= 1 { sample_every_n as int } else { 1 };
            &&& forall|k: int| 0 <= k < r@.len() ==> #[trigger] r@[k] == k * step && r@[k] < frame_count
            &&& r@.len() * step >= frame_count
        }),
{
    let step: usize = if sample_every_n >= 1 { sample_every_n } else { 1 };
    let mut out: Vec<usize> = Vec::new();
    if frame_count == 0 {
        proof { assert(out@.len() * step == 0) by (nonlinear_arith) requires out@.len() == 0; }
        return out;
    }
    let mut i: usize = 0;
    proof { assert(out@.len() * step == 0) by (nonlinear_arith) requires out@.len() == 0; }
    loop
        invariant_except_break
            i < frame_count,
            i == out@.len() * step,
        invariant
            step >= 1,
            step == (if sample_every_n >= 1 { sample_every_n as int } else { 1 }),
            forall|k: int| 0 <= k < out@.len() ==> #[trigger] out@[k] == k * step && out@[k] < frame_count,
        ensures
            out@.len() * step >= frame_count,
        decreases frame_count - i,
    {
        let ghost n = out@.len();
        out.push(i);
        proof {
            assert(n * step + step == (n + 1) * step) by (nonlinear_arith);
        }
        if frame_count - i <= step {
            break;
        }
        i = i + step;
    }
    out
}

/// A run of relevant samples: frames `start_idx..=end_idx`, covering samples
/// `first_sample..=last_sample` (by sample number).
#[derive(Debug, Clone, Copy, PartialEq, Eq, Structural)]
pub struct SampleRun {
    pub start_idx: usize,
    pub end_idx: usize,
    pub first_sample: usize,
    pub last_sample: usize,
}

/// Last frame covered by the sample at frame `idx`: the frames up to the
/// next sample, within the clip.
pub open spec fn sample_end(idx: int, step: int, frame_count: int) -> int {
    if idx + step - 1 <= frame_count - 1 { idx + step - 1 } else { frame_count - 1 }
}

/// Runs of relevant samples built sample by sample (sample `k` sits at frame
/// `k * step`): a relevant sample joins the current run when it is at most
/// `max_gap` frames after the run's last relevant sample, and otherwise opens
/// a new run.
spec fn runs_of(rel: Seq<bool>, step: int, frame_count: int, max_gap: int) -> Seq<SampleRun>
    decreases rel.len(),
{
    if rel.len() == 0 {
        Seq::empty()
    } else {
        let r = runs_of(rel.drop_last(), step, frame_count, max_gap);
        let k = rel.len() - 1;
        let idx = k * step;
        let end = sample_end(idx, step, frame_count);
        if !rel.last() {
            r
        } else if r.len() > 0 && idx - r.last().last_sample * step <= max_gap {
            r.update(r.len() - 1, SampleRun { end_idx: end as usize, last_sample: k as usize, ..r.last() })
        } else {
            r.push(SampleRun { start_idx: idx as usize, end_idx: end as usize, first_sample: k as usize, last_sample: k as usize })
        }
    }
}

proof fn lemma_runs_last_sample(rel: Seq<bool>, step: int, frame_count: int, max_gap: int)
    requires
        rel.len() <= usize::MAX,
    ensures
        forall|i: int| 0 <= i < runs_of(rel, step, frame_count, max_gap).len() ==>
            #[trigger] runs_of(rel, step, frame_count, max_gap)[i].last_sample < rel.len(),
    decreases rel.len(),
{
    if rel.len() > 0 {
        lemma_runs_last_sample(rel.drop_last(), step, frame_count, max_gap);
        let r = runs_of(rel.drop_last(), step, frame_count, max_gap);
        assert forall|i: int| 0 <= i < runs_of(rel, step, frame_count, max_gap).len() implies
            #[trigger] runs_of(rel, step, frame_count, max_gap)[i].last_sample < rel.len() by {
            if i < r.len() {
                assert(r[i].last_sample < rel.drop_last().len());
            }
        }
    }
}

/// Shape of the runs over `n` samples: each run's frames are given by its
/// first and last sample, and runs follow each other sample-wise.
pub open spec fn runs_shaped(r: Seq<SampleRun>, n: int, step: int, frame_count: int) -> bool {
    &&& forall|i: int| 0 <= i < r.len() ==> {
        &&& (#[trigger] r[i]).first_sample <= r[i].last_sample < n
        &&& r[i].start_idx == r[i].first_sample * step
        &&& r[i].end_idx == sample_end(r[i].last_sample * step, step, frame_count)
    }
    &&& forall|i: int, j: int| 0 <= i < j < r.len() ==> (#[trigger] r[i]).last_sample < (#[trigger] r[j]).first_sample
}

proof fn lemma_runs_shaped(rel: Seq<bool>, step: int, frame_count: int, max_gap: int)
    requires
        step >= 1,
        frame_count <= usize::MAX,
        rel.len() == 0 || (rel.len() - 1) * step < frame_count,
    ensures
        runs_shaped(runs_of(rel, step, frame_count, max_gap), rel.len() as int, step, frame_count),
    decreases rel.len(),
{
    if rel.len() > 0 {
        let n = rel.len() as int;
        let k = n - 1;
        let d = rel.drop_last();
        if d.len() > 0 {
            assert((d.len() - 1) * step <= k * step) by (nonlinear_arith)
                requires d.len() - 1 <= k, step >= 1;
        }
        lemma_runs_shaped(d, step, frame_count, max_gap);
        let r = runs_of(d, step, frame_count, max_gap);
        let idx = k * step;
        assert(0 <= idx < frame_count) by (nonlinear_arith)
            requires k >= 0, step >= 1, k * step < frame_count, idx == k * step;
        let end = sample_end(idx, step, frame_count);
        assert(idx <= end < frame_count);
        assert(k <= idx) by (nonlinear_arith)
            requires k >= 0, step >= 1, idx == k * step;
        assert((k as usize) as int == k);
        assert((idx as usize) as int == idx);
        assert((end as usize) as int == end);
        let out = runs_of(rel, step, frame_count, max_gap);
        if !rel.last() {
            assert(out == r);
        } else if r.len() > 0 && idx - r.last().last_sample * step <= max_gap {
            let m = r.len() - 1;
            let nr = SampleRun { end_idx: end as usize, last_sample: k as usize, ..r.last() };
            assert(out == r.update(m, nr));
            assert(r[m] == r.last());
            assert forall|i: int| 0 <= i < out.len() implies {
                &&& (#[trigger] out[i]).first_sample <= out[i].last_sample < n
                &&& out[i].start_idx == out[i].first_sample * step
                &&& out[i].end_idx == sample_end(out[i].last_sample * step, step, frame_count)
            } by {
                if i < m {
                    assert(out[i] == r[i]);
                }
            }
            assert forall|i: int, j: int| 0 <= i < j < out.len() implies (#[trigger] out[i]).last_sample < (#[trigger] out[j]).first_sample by {
                assert(r[i].last_sample < r[j].first_sample);
                if j < m {
                    assert(out[i] == r[i] && out[j] == r[j]);
                } else {
                    assert(out[i] == r[i]);
                    assert(out[j].first_sample == r[j].first_sample);
                }
            }
        } else {
            let nr = SampleRun { start_idx: idx as usize, end_idx: end as usize, first_sample: k as usize, last_sample: k as usize };
            assert(out == r.push(nr));
            assert forall|i: int| 0 <= i < out.len() implies {
                &&& (#[trigger] out[i]).first_sample <= out[i].last_sample < n
                &&& out[i].start_idx == out[i].first_sample * step
                &&& out[i].end_idx == sample_end(out[i].last_sample * step, step, frame_count)
            } by {
                if i < r.len() {
                    assert(out[i] == r[i]);
                }
            }
            assert forall|i: int, j: int| 0 <= i < j < out.len() implies (#[trigger] out[i]).last_sample < (#[trigger] out[j]).first_sample by {
                if j < r.len() {
                    assert(out[i] == r[i] && out[j] == r[j]);
                    assert(r[i].last_sample < r[j].first_sample);
                } else {
                    assert(out[i] == r[i]);
                    assert(r[i].last_sample < k);
                }
            }
        }
    }
}

/// No sample strictly between `a` and `b` is relevant.
pub open spec fn no_relevant_between(rel: Seq<bool>, a: int, b: int) -> bool {
    forall|c: int| a < c < b ==> !#[trigger] rel[c]
}

/// `r` are the runs of the relevant samples `rel` (sample `k` at frame
/// `k * step`): the runs follow each other, each from its first to its last
/// sample with frames `first * step` to the frame before the next sample;
/// each run starts and ends on a relevant sample; every relevant sample lies
/// in a run; inside a run, consecutive relevant samples are at most `max_gap`
/// frames apart; and the next run starts more than `max_gap` frames after the
/// previous one's last sample.
pub open spec fn is_relevant_runs(r: Seq<SampleRun>, rel: Seq<bool>, step: int, frame_count: int, max_gap: int) -> bool {
    &&& runs_shaped(r, rel.len() as int, step, frame_count)
    &&& forall|i: int| 0 <= i < r.len() ==> #[trigger] rel[r[i].first_sample as int]
    &&& forall|i: int| 0 <= i < r.len() ==> #[trigger] rel[r[i].last_sample as int]
    &&& forall|k: int| 0 <= k < rel.len() && #[trigger] rel[k] ==> exists|i: int|
        0 <= i < r.len() && (#[trigger] r[i]).first_sample <= k <= r[i].last_sample
    &&& forall|i: int, a: int, b: int| #![trigger r[i], rel[a], rel[b]]
        0 <= i < r.len() && r[i].first_sample <= a < b <= r[i].last_sample && rel[a] && rel[b]
            && no_relevant_between(rel, a, b) ==> b * step - a * step <= max_gap
    &&& forall|i: int, j: int| #![trigger r[i], r[j]]
        0 <= i && j == i + 1 && j < r.len() ==> r[j].first_sample * step - r[i].last_sample * step > max_gap
}

proof fn lemma_nothing_after_last_run(r: Seq<SampleRun>, d: Seq<bool>, step: int, frame_count: int, max_gap: int, c: int)
    requires
        is_relevant_runs(r, d, step, frame_count, max_gap),
        0 <= c < d.len(),
        r.len() == 0 || c > r.last().last_sample,
    ensures
        !d[c],
{
    if d[c] {
        let i = choose|i: int| 0 <= i < r.len() && (#[trigger] r[i]).first_sample <= c <= r[i].last_sample;
        let m = r.len() - 1;
        if i < m {
            assert(r[i].last_sample < r[m].first_sample);
        }
        assert(r[m] == r.last());
    }
}

proof fn lemma_runs_meaning_skip(rel: Seq<bool>, r: Seq<SampleRun>, out: Seq<SampleRun>, step: int, frame_count: int, max_gap: int)
    requires
        step >= 1,
        rel.len() > 0,
        is_relevant_runs(r, rel.drop_last(), step, frame_count, max_gap),
        runs_shaped(out, rel.len() as int, step, frame_count),
        !rel.last(),
        out == r,
    ensures
        is_relevant_runs(out, rel, step, frame_count, max_gap),
{
    let d = rel.drop_last();
    let k = rel.len() - 1;
    assert forall|x: int| 0 <= x < k implies #[trigger] d[x] == rel[x] by {}
    assert forall|i: int| 0 <= i < out.len() implies #[trigger] rel[out[i].first_sample as int] by {
        assert(d[r[i].first_sample as int]);
    }
    assert forall|i: int| 0 <= i < out.len() implies #[trigger] rel[out[i].last_sample as int] by {
        assert(d[r[i].last_sample as int]);
    }
    assert forall|kk: int| 0 <= kk < rel.len() && #[trigger] rel[kk] implies exists|i: int|
        0 <= i < out.len() && (#[trigger] out[i]).first_sample <= kk <= out[i].last_sample by {
        assert(d[kk]);
    }
    assert forall|i: int, a: int, b: int| #![trigger out[i], rel[a], rel[b]]
        0 <= i < out.len() && out[i].first_sample <= a < b <= out[i].last_sample && rel[a] && rel[b]
            && no_relevant_between(rel, a, b) implies b * step - a * step <= max_gap by {
        assert forall|c: int| a < c < b implies !#[trigger] d[c] by {
            assert(!rel[c]);
        }
        assert(d[a] && d[b] && r[i] == out[i]);
    }
}

proof fn lemma_runs_meaning_join(rel: Seq<bool>, r: Seq<SampleRun>, out: Seq<SampleRun>, step: int, frame_count: int, max_gap: int)
    requires
        step >= 1,
        frame_count <= usize::MAX,
        rel.len() > 0,
        (rel.len() - 1) * step < frame_count,
        is_relevant_runs(r, rel.drop_last(), step, frame_count, max_gap),
        runs_shaped(out, rel.len() as int, step, frame_count),
        rel.last(),
        r.len() > 0,
        (rel.len() - 1) * step - r.last().last_sample * step <= max_gap,
        out == r.update(r.len() - 1, SampleRun { end_idx: sample_end((rel.len() - 1) * step, step, frame_count) as usize, last_sample: (rel.len() - 1) as usize, ..r.last() }),
    ensures
        is_relevant_runs(out, rel, step, frame_count, max_gap),
{
    let d = rel.drop_last();
    let k = rel.len() - 1;
    let m = r.len() - 1;
    let lst = r[m].last_sample as int;
    assert(r[m] == r.last());
    assert(k <= k * step) by (nonlinear_arith) requires k >= 0, step >= 1;
    assert((k as usize) as int == k);
    assert(out[m].first_sample == r[m].first_sample && out[m].last_sample == k);
    assert forall|x: int| 0 <= x < k implies #[trigger] d[x] == rel[x] by {}
    assert forall|i: int| 0 <= i < m implies #[trigger] out[i] == r[i] by {}
    assert forall|i: int| 0 <= i < out.len() implies #[trigger] rel[out[i].first_sample as int] by {
        assert(d[r[i].first_sample as int]);
    }
    assert forall|i: int| 0 <= i < out.len() implies #[trigger] rel[out[i].last_sample as int] by {
        if i < m {
            assert(d[r[i].last_sample as int]);
        }
    }
    assert forall|kk: int| 0 <= kk < rel.len() && #[trigger] rel[kk] implies exists|i: int|
        0 <= i < out.len() && (#[trigger] out[i]).first_sample <= kk <= out[i].last_sample by {
        if kk < k {
            assert(d[kk]);
            let i = choose|i: int| 0 <= i < r.len() && (#[trigger] r[i]).first_sample <= kk <= r[i].last_sample;
            assert(out[i].first_sample <= kk <= out[i].last_sample);
        } else {
            assert(out[m].first_sample <= kk <= out[m].last_sample);
        }
    }
    assert forall|i: int, a: int, b: int| #![trigger out[i], rel[a], rel[b]]
        0 <= i < out.len() && out[i].first_sample <= a < b <= out[i].last_sample && rel[a] && rel[b]
            && no_relevant_between(rel, a, b) implies b * step - a * step <= max_gap by {
        if b <= lst || i < m {
            assert(b <= r[i].last_sample);
            assert forall|c: int| a < c < b implies !#[trigger] d[c] by {
                assert(!rel[c]);
            }
            assert(d[a] && d[b]);
            assert(r[i].first_sample == out[i].first_sample);
        } else if b < k {
            assert(d[b]);
            lemma_nothing_after_last_run(r, d, step, frame_count, max_gap, b);
        } else {
            assert(d[lst]);
            if a < lst {
                assert(!rel[lst]);
            } else if a > lst {
                assert(d[a]);
                lemma_nothing_after_last_run(r, d, step, frame_count, max_gap, a);
            }
        }
    }
    assert forall|i: int, j: int| #![trigger out[i], out[j]]
        0 <= i && j == i + 1 && j < out.len() implies out[j].first_sample * step - out[i].last_sample * step > max_gap by {
        assert(r[j].first_sample * step - r[i].last_sample * step > max_gap);
    }
}

proof fn lemma_runs_meaning_open(rel: Seq<bool>, r: Seq<SampleRun>, out: Seq<SampleRun>, step: int, frame_count: int, max_gap: int)
    requires
        step >= 1,
        frame_count <= usize::MAX,
        rel.len() > 0,
        (rel.len() - 1) * step < frame_count,
        is_relevant_runs(r, rel.drop_last(), step, frame_count, max_gap),
        runs_shaped(out, rel.len() as int, step, frame_count),
        rel.last(),
        !(r.len() > 0 && (rel.len() - 1) * step - r.last().last_sample * step <= max_gap),
        out == r.push(SampleRun { start_idx: ((rel.len() - 1) * step) as usize, end_idx: sample_end((rel.len() - 1) * step, step, frame_count) as usize, first_sample: (rel.len() - 1) as usize, last_sample: (rel.len() - 1) as usize }),
    ensures
        is_relevant_runs(out, rel, step, frame_count, max_gap),
{
    let d = rel.drop_last();
    let k = rel.len() - 1;
    let m = r.len() as int;
    assert(k <= k * step) by (nonlinear_arith) requires k >= 0, step >= 1;
    assert((k as usize) as int == k);
    assert(out[m].first_sample == k && out[m].last_sample == k);
    assert forall|x: int| 0 <= x < k implies #[trigger] d[x] == rel[x] by {}
    assert forall|i: int| 0 <= i < m implies #[trigger] out[i] == r[i] by {}
    assert forall|i: int| 0 <= i < out.len() implies #[trigger] rel[out[i].first_sample as int] by {
        if i < m {
            assert(d[r[i].first_sample as int]);
        }
    }
    assert forall|i: int| 0 <= i < out.len() implies #[trigger] rel[out[i].last_sample as int] by {
        if i < m {
            assert(d[r[i].last_sample as int]);
        }
    }
    assert forall|kk: int| 0 <= kk < rel.len() && #[trigger] rel[kk] implies exists|i: int|
        0 <= i < out.len() && (#[trigger] out[i]).first_sample <= kk <= out[i].last_sample by {
        if kk < k {
            assert(d[kk]);
            let i = choose|i: int| 0 <= i < r.len() && (#[trigger] r[i]).first_sample <= kk <= r[i].last_sample;
            assert(out[i].first_sample <= kk <= out[i].last_sample);
        } else {
            assert(out[m].first_sample <= kk <= out[m].last_sample);
        }
    }
    assert forall|i: int, a: int, b: int| #![trigger out[i], rel[a], rel[b]]
        0 <= i < out.len() && out[i].first_sample <= a < b <= out[i].last_sample && rel[a] && rel[b]
            && no_relevant_between(rel, a, b) implies b * step - a * step <= max_gap by {
        assert(i < m);
        assert forall|c: int| a < c < b implies !#[trigger] d[c] by {
            assert(!rel[c]);
        }
        assert(d[a] && d[b]);
    }
    assert forall|i: int, j: int| #![trigger out[i], out[j]]
        0 <= i && j == i + 1 && j < out.len() implies out[j].first_sample * step - out[i].last_sample * step > max_gap by {
        if j < m {
            assert(r[j].first_sample * step - r[i].last_sample * step > max_gap);
        } else {
            assert(r.last() == r[i]);
        }
    }
}

proof fn lemma_runs_meaning(rel: Seq<bool>, step: int, frame_count: int, max_gap: int)
    requires
        step >= 1,
        frame_count <= usize::MAX,
        rel.len() == 0 || (rel.len() - 1) * step < frame_count,
    ensures
        is_relevant_runs(runs_of(rel, step, frame_count, max_gap), rel, step, frame_count, max_gap),
    decreases rel.len(),
{
    lemma_runs_shaped(rel, step, frame_count, max_gap);
    if rel.len() > 0 {
        let k = rel.len() - 1;
        let d = rel.drop_last();
        if d.len() > 0 {
            assert((d.len() - 1) * step <= k * step) by (nonlinear_arith)
                requires d.len() - 1 <= k, step >= 1;
        }
        lemma_runs_meaning(d, step, frame_count, max_gap);
        lemma_runs_shaped(d, step, frame_count, max_gap);
        let r = runs_of(d, step, frame_count, max_gap);
        let out = runs_of(rel, step, frame_count, max_gap);
        if !rel.last() {
            assert(out == r);
            lemma_runs_meaning_skip(rel, r, out, step, frame_count, max_gap);
        } else if r.len() > 0 && k * step - r.last().last_sample * step <= max_gap {
            lemma_runs_meaning_join(rel, r, out, step, frame_count, max_gap);
        } else {
            lemma_runs_meaning_open(rel, r, out, step, frame_count, max_gap);
        }
    } else {
        assert(runs_of(rel, step, frame_count, max_gap) == Seq::<SampleRun>::empty());
    }
}

/// The runs of relevant samples come in frame order without overlapping:
/// every run lies within the clip with its first frame no later than its
/// last, and each run starts after the previous one ends.
pub proof fn lemma_runs_ordered(r: Seq<SampleRun>, rel: Seq<bool>, step: int, frame_count: int, max_gap: int)
    requires
        step >= 1,
        rel.len() == 0 || (rel.len() - 1) * step < frame_count,
        is_relevant_runs(r, rel, step, frame_count, max_gap),
    ensures
        forall|i: int| 0 <= i < r.len() ==> #[trigger] r[i].start_idx <= r[i].end_idx < frame_count,
        forall|i: int, j: int| 0 <= i < j < r.len() ==> (#[trigger] r[i]).end_idx < (#[trigger] r[j]).start_idx,
{
    let n = rel.len() as int;
    assert forall|i: int| 0 <= i < r.len() implies #[trigger] r[i].start_idx <= r[i].end_idx < frame_count by {
        let f = r[i].first_sample as int;
        let l = r[i].last_sample as int;
        assert(f * step <= l * step) by (nonlinear_arith)
            requires f <= l, step >= 1;
        assert(l * step <= (n - 1) * step) by (nonlinear_arith)
            requires l <= n - 1, step >= 1;
    }
    assert forall|i: int, j: int| 0 <= i < j < r.len() implies (#[trigger] r[i]).end_idx < (#[trigger] r[j]).start_idx by {
        let l = r[i].last_sample as int;
        let f = r[j].first_sample as int;
        assert(l < f);
        assert(l * step + step <= f * step) by (nonlinear_arith)
            requires l < f, step >= 1;
    }
}

/// Groups the relevant samples of a clip into runs: sample `k` (at frame
/// `k * step`, `step` being `sample_every_n` or at least 1) is relevant when
/// `relevant[k]`; a run ends once the next relevant sample is more than
/// `max_gap_frames` frames after the previous one.
pub fn relevant_runs(relevant: &Vec<bool>, frame_count: usize, sample_every_n: usize, max_gap_frames: usize) -> (r: Vec<SampleRun>)
    requires
        relevant@.len() == 0
            || (relevant@.len() - 1) * (if sample_every_n >= 1 { sample_every_n as int } else { 1 }) < frame_count,
    ensures
        is_relevant_runs(r@, relevant@, if sample_every_n >= 1 { sample_every_n as int } else { 1 }, frame_count as int, max_gap_frames as int),
{
    let step: usize = if sample_every_n >= 1 { sample_every_n } else { 1 };
    let ghost st = step as int;
    let mut out: Vec<SampleRun> = Vec::new();
    let mut k: usize = 0;
    while k < relevant.len()
        invariant
            k <= relevant@.len(),
            st == step,
            step >= 1,
            st == (if sample_every_n >= 1 { sample_every_n as int } else { 1 }),
            relevant@.len() == 0 || (relevant@.len() - 1) * st < frame_count,
            out@ == runs_of(relevant@.take(k as int), st, frame_count as int, max_gap_frames as int),
        decreases relevant.len() - k,
    {
        proof {
            lemma_runs_last_sample(relevant@.take(k as int), st, frame_count as int, max_gap_frames as int);
            assert(relevant@.take(k + 1).drop_last() =~= relevant@.take(k as int));
            assert(k * st <= (relevant@.len() - 1) * st) by (nonlinear_arith)
                requires k <= relevant@.len() - 1, st >= 1;
        }
        let idx: usize = k * step;
        let end: usize = if step - 1 <= (frame_count - 1) - idx { idx + step - 1 } else { frame_count - 1 };
        if relevant[k] {
            let n = out.len();
            let mut joined = false;
            if n > 0 {
                let prev = out[n - 1];
                proof {
                    assert(prev.last_sample < k);
                    assert(prev.last_sample * st <= k * st) by (nonlinear_arith)
                        requires prev.last_sample < k, st >= 1;
                    assert(prev.last_sample * st < frame_count);
                }
                let prev_idx: usize = prev.last_sample * step;
                if idx - prev_idx <= max_gap_frames {
                    out.set(n - 1, SampleRun { end_idx: end, last_sample: k, ..prev });
                    joined = true;
                }
            }
            if !joined {
                out.push(SampleRun { start_idx: idx, end_idx: end, first_sample: k, last_sample: k });
            }
        }
        k = k + 1;
    }
    assert(relevant@.take(relevant@.len() as int) =~= relevant@);
    proof {
        lemma_runs_meaning(relevant@, st, frame_count as int, max_gap_frames as int);
    }
    out
}

/// A group of consecutive segments merged into one: frames
/// `start_idx..=end_idx`, made of input segments `first..=last`.
#[derive(Debug, Clone, Copy, PartialEq, Eq, Structural)]
pub struct SegmentGroup {
    pub start_idx: usize,
    pub end_idx: usize,
    pub first: usize,
    pub last: usize,
}

/// Segments (given as frame ranges) merged left to right, one at a time: a
/// segment joins the current group when it starts at most `max_gap` frames
/// after the group's end, and then the group ends where that segment ends.
spec fn merged_groups(s: Seq<(usize, usize)>, max_gap: int) -> Seq<SegmentGroup>
    decreases s.len(),
{
    if s.len() == 0 {
        Seq::empty()
    } else {
        let m = merged_groups(s.drop_last(), max_gap);
        let k = s.len() - 1;
        let g = s.last();
        if m.len() > 0 && g.0 <= m.last().end_idx + max_gap {
            m.update(m.len() - 1, SegmentGroup { end_idx: g.1, last: k as usize, ..m.last() })
        } else {
            m.push(SegmentGroup { start_idx: g.0, end_idx: g.1, first: k as usize, last: k as usize })
        }
    }
}

proof fn lemma_groups_end_from_input(s: Seq<(usize, usize)>, max_gap: int)
    ensures
        forall|i: int| 0 <= i < merged_groups(s, max_gap).len() ==>
            exists|j: int| 0 <= j < s.len() && #[trigger] merged_groups(s, max_gap)[i].end_idx == s[j].1,
    decreases s.len(),
{
    if s.len() > 0 {
        let d = s.drop_last();
        lemma_groups_end_from_input(d, max_gap);
        let m = merged_groups(d, max_gap);
        let r = merged_groups(s, max_gap);
        assert forall|i: int| 0 <= i < r.len() implies
            exists|j: int| 0 <= j < s.len() && #[trigger] r[i].end_idx == s[j].1 by {
            if i < m.len() && r[i] == m[i] {
                let j = choose|j: int| 0 <= j < d.len() && m[i].end_idx == d[j].1;
                assert(s[j] == d[j]);
            } else {
                assert(r[i].end_idx == s[s.len() - 1].1);
            }
        }
    }
}

/// `g` are the segments `s` merged: the groups split the segments, in order,
/// into consecutive blocks `first..=last`; a group spans from the start of
/// its first segment to the end of its last; inside a group each segment
/// starts at most `max_gap` frames after the previous segment ends; and each
/// group's first segment starts more than `max_gap` frames after the previous
/// group's last segment ends.
pub open spec fn is_merged_groups(g: Seq<SegmentGroup>, s: Seq<(usize, usize)>, max_gap: int) -> bool {
    &&& (g.len() == 0 <==> s.len() == 0)
    &&& g.len() > 0 ==> g[0].first == 0 && g[g.len() - 1].last == s.len() - 1
    &&& forall|i: int| 0 <= i < g.len() ==> {
        &&& (#[trigger] g[i]).first <= g[i].last < s.len()
        &&& g[i].start_idx == s[g[i].first as int].0
        &&& g[i].end_idx == s[g[i].last as int].1
    }
    &&& forall|i: int, j: int| #![trigger g[i], g[j]] 0 <= i && j == i + 1 && j < g.len() ==> {
        &&& g[j].first == g[i].last + 1
        &&& s[g[j].first as int].0 > s[g[i].last as int].1 + max_gap
    }
    &&& forall|i: int, j: int, k: int| #![trigger g[i], s[j], s[k]]
        0 <= i < g.len() && g[i].first <= j && k == j + 1 && k <= g[i].last ==> s[k].0 <= s[j].1 + max_gap
}

proof fn lemma_merged_meaning(s: Seq<(usize, usize)>, max_gap: int)
    requires
        s.len() <= usize::MAX,
    ensures
        is_merged_groups(merged_groups(s, max_gap), s, max_gap),
    decreases s.len(),
{
    if s.len() > 0 {
        let d = s.drop_last();
        lemma_merged_meaning(d, max_gap);
        let m = merged_groups(d, max_gap);
        let out = merged_groups(s, max_gap);
        let k = s.len() - 1;
        let g = s.last();
        assert((k as usize) as int == k);
        assert forall|x: int| 0 <= x < k implies #[trigger] d[x] == s[x] by {}
        if m.len() > 0 {
            let l = m.len() - 1;
            assert(m[l] == m.last());
            assert(m[l].last == k - 1);
            assert(m[l].end_idx == s[k - 1].1) by {
                assert(d[m[l].last as int] == s[k - 1]);
            }
        }
        if m.len() > 0 && g.0 <= m.last().end_idx + max_gap {
            let l = m.len() - 1;
            assert(out == m.update(l, SegmentGroup { end_idx: g.1, last: k as usize, ..m.last() }));
            assert forall|i: int| 0 <= i < l implies #[trigger] out[i] == m[i] by {}
            assert(out[l].first == m[l].first && out[l].last == k && out[l].start_idx == m[l].start_idx);
            assert forall|i: int| 0 <= i < out.len() implies {
                &&& (#[trigger] out[i]).first <= out[i].last < s.len()
                &&& out[i].start_idx == s[out[i].first as int].0
                &&& out[i].end_idx == s[out[i].last as int].1
            } by {
                assert(m[i].first <= m[i].last < d.len());
                assert(d[m[i].first as int] == s[m[i].first as int]);
                if i < l {
                    assert(d[m[i].last as int] == s[m[i].last as int]);
                }
            }
            assert forall|i: int, j: int| #![trigger out[i], out[j]] 0 <= i && j == i + 1 && j < out.len() implies {
                &&& out[j].first == out[i].last + 1
                &&& s[out[j].first as int].0 > s[out[i].last as int].1 + max_gap
            } by {
                assert(m[j].first == m[i].last + 1 && d[m[j].first as int].0 > d[m[i].last as int].1 + max_gap);
                assert(m[i].last < m[j].first <= m[j].last < d.len());
            }
            assert forall|i: int, j: int, kk: int| #![trigger out[i], s[j], s[kk]]
                0 <= i < out.len() && out[i].first <= j && kk == j + 1 && kk <= out[i].last implies s[kk].0 <= s[j].1 + max_gap by {
                if kk < k {
                    assert(d[j] == s[j] && d[kk] == s[kk]);
                    assert(m[i].first <= j && kk <= m[i].last);
                }
            }
        } else {
            let l = m.len() as int;
            assert(out == m.push(SegmentGroup { start_idx: g.0, end_idx: g.1, first: k as usize, last: k as usize }));
            assert forall|i: int| 0 <= i < l implies #[trigger] out[i] == m[i] by {}
            assert forall|i: int| 0 <= i < out.len() implies {
                &&& (#[trigger] out[i]).first <= out[i].last < s.len()
                &&& out[i].start_idx == s[out[i].first as int].0
                &&& out[i].end_idx == s[out[i].last as int].1
            } by {
                if i < l {
                    assert(m[i].first <= m[i].last < d.len());
                    assert(d[m[i].first as int] == s[m[i].first as int]);
                    assert(d[m[i].last as int] == s[m[i].last as int]);
                }
            }
            assert forall|i: int, j: int| #![trigger out[i], out[j]] 0 <= i && j == i + 1 && j < out.len() implies {
                &&& out[j].first == out[i].last + 1
                &&& s[out[j].first as int].0 > s[out[i].last as int].1 + max_gap
            } by {
                if j < l {
                    assert(m[j].first == m[i].last + 1 && d[m[j].first as int].0 > d[m[i].last as int].1 + max_gap);
                    assert(m[i].last < m[j].first <= m[j].last < d.len());
                } else {
                    assert(m.last() == m[i]);
                }
            }
            assert forall|i: int, j: int, kk: int| #![trigger out[i], s[j], s[kk]]
                0 <= i < out.len() && out[i].first <= j && kk == j + 1 && kk <= out[i].last implies s[kk].0 <= s[j].1 + max_gap by {
                assert(i < l);
                assert(m[i].first <= m[i].last < d.len());
                assert(d[j] == s[j] && d[kk] == s[kk]);
            }
        }
    } else {
        assert(merged_groups(s, max_gap) == Seq::<SegmentGroup>::empty());
    }
}

/// Merges neighbouring segments that are at most `max_gap_frames` apart,
/// returning the merged frame ranges with the input segments each one holds.
pub fn merge_close_segments(segments: &Vec<(usize, usize)>, max_gap_frames: usize) -> (r: Vec<SegmentGroup>)
    requires
        forall|j: int| 0 <= j < segments@.len() ==> #[trigger] segments@[j].1 + max_gap_frames <= usize::MAX,
    ensures
        is_merged_groups(r@, segments@, max_gap_frames as int),
{
    let mut out: Vec<SegmentGroup> = Vec::new();
    let mut k: usize = 0;
    while k < segments.len()
        invariant
            k <= segments@.len(),
            forall|j: int| 0 <= j < segments@.len() ==> #[trigger] segments@[j].1 + max_gap_frames <= usize::MAX,
            out@ == merged_groups(segments@.take(k as int), max_gap_frames as int),
        decreases segments.len() - k,
    {
        proof {
            assert(segments@.take(k + 1).drop_last() =~= segments@.take(k as int));
            lemma_groups_end_from_input(segments@.take(k as int), max_gap_frames as int);
        }
        let g = segments[k];
        let n = out.len();
        let mut joined = false;
        if n > 0 {
            let cur = out[n - 1];
            proof {
                let t = segments@.take(k as int);
                let j = choose|j: int| 0 <= j < t.len() && #[trigger] out@[n - 1].end_idx == t[j].1;
                assert(t[j] == segments@[j]);
            }
            if g.0 <= cur.end_idx + max_gap_frames {
                out.set(n - 1, SegmentGroup { end_idx: g.1, last: k, ..cur });
                joined = true;
            }
        }
        if !joined {
            out.push(SegmentGroup { start_idx: g.0, end_idx: g.1, first: k, last: k });
        }
        k = k + 1;
    }
    assert(segments@.take(segments@.len() as int) =~= segments@);
    proof {
        lemma_merged_meaning(segments@, max_gap_frames as int);
    }
    out
}

/// An RGB image, row by row, three bytes per pixel.
#[derive(Debug, Clone)]
pub struct RgbFrame {
    pub width: usize,
    pub height: usize,
    pub data: Vec<u8>,
}

/// Position of the red byte of pixel `(x, y)`.
pub open spec fn pixel_offset(width: int, x: int, y: int) -> int {
    (y * width + x) * 3
}

proof fn lemma_pixel_in_bounds(width: int, height: int, x: int, y: int)
    requires
        0 <= x < width,
        0 <= y < height,
    ensures
        0 <= pixel_offset(width, x, y),
        pixel_offset(width, x, y) + 2 < width * height * 3,
{
    assert(0 <= y * width) by (nonlinear_arith) requires 0 <= y, 0 <= width;
    assert(y * width + x < width * height) by (nonlinear_arith)
        requires 0 <= x < width, 0 <= y < height;
    assert((y * width + x) * 3 + 2 < width * height * 3) by (nonlinear_arith)
        requires y * width + x < width * height;
}

impl RgbFrame {
    /// The pixel buffer holds exactly `width * height` pixels.
    pub open spec fn wf(&self) -> bool {
        self.data@.len() == self.width * self.height * 3
    }

    /// Whether pixel `(x, y)` looks like grass.
    pub open spec fn green_at(&self, x: int, y: int) -> bool {
        let i = pixel_offset(self.width as int, x, y);
        green_rgb(self.data@[i], self.data@[i + 1], self.data@[i + 2])
    }

    /// Whether pixel `(x, y)` looks like a painted line.
    pub open spec fn line_at(&self, x: int, y: int) -> bool {
        let i = pixel_offset(self.width as int, x, y);
        line_rgb(self.data@[i], self.data@[i + 1], self.data@[i + 2])
    }

    /// The pixel at `(x, y)` as red, green, blue.
    pub fn get_pixel(&self, x: usize, y: usize) -> (r: [u8; 3])
        requires
            self.wf(),
            x < self.width,
            y < self.height,
        ensures
            spec_is_pitch_green(r) == self.green_at(x as int, y as int),
            spec_is_pitch_line(r) == self.line_at(x as int, y as int),
    {
        proof { lemma_pixel_in_bounds(self.width as int, self.height as int, x as int, y as int); }
        let n = self.data.len();
        assert(y * self.width + x <= (y * self.width + x) * 3) by (nonlinear_arith)
            requires 0 <= y * self.width + x;
        assert(y * self.width <= y * self.width + x);
        let i = (y * self.width + x) * 3;
        [self.data[i], self.data[i + 1], self.data[i + 2]]
    }
}

/// Number of grass pixels among the first `n` of row `y`.
pub open spec fn green_in_row(f: RgbFrame, y: int, n: int) -> nat
    decreases n,
{
    if n <= 0 { 0 } else { green_in_row(f, y, n - 1) + if f.green_at(n - 1, y) { 1nat } else { 0nat } }
}

/// Number of line pixels among the first `n` of row `y`.
pub open spec fn line_in_row(f: RgbFrame, y: int, n: int) -> nat
    decreases n,
{
    if n <= 0 { 0 } else { line_in_row(f, y, n - 1) + if f.line_at(n - 1, y) { 1nat } else { 0nat } }
}

/// Number of line pixels in column `x` over rows `y0..y1`.
pub open spec fn line_in_column(f: RgbFrame, x: int, y0: int, y1: int) -> nat
    decreases y1 - y0,
{
    if y1 <= y0 { 0 } else { line_in_column(f, x, y0, y1 - 1) + if f.line_at(x, y1 - 1) { 1nat } else { 0nat } }
}

proof fn lemma_count_le(f: RgbFrame, y: int, n: int)
    requires
        0 <= n,
    ensures
        green_in_row(f, y, n) <= n,
        line_in_row(f, y, n) <= n,
    decreases n,
{
    if n > 0 {
        lemma_count_le(f, y, n - 1);
    }
}

/// Number of grass pixels in row `y`.
pub fn row_green_count(frame: &RgbFrame, y: usize) -> (r: usize)
    requires
        frame.wf(),
        y < frame.height,
    ensures
        r == green_in_row(*frame, y as int, frame.width as int),
{
    let mut count: usize = 0;
    let mut x: usize = 0;
    while x < frame.width
        invariant
            frame.wf(),
            y < frame.height,
            x <= frame.width,
            count == green_in_row(*frame, y as int, x as int),
        decreases frame.width - x,
    {
        proof { lemma_count_le(*frame, y as int, x as int); }
        let p = frame.get_pixel(x, y);
        if is_pitch_green(p) {
            count = count + 1;
        }
        x = x + 1;
    }
    count
}

/// Grass pixel count of every row, top to bottom.
pub fn row_green_counts(frame: &RgbFrame) -> (r: Vec<usize>)
    requires
        frame.wf(),
    ensures
        r@.len() == frame.height,
        forall|y: int| 0 <= y < frame.height ==> #[trigger] r@[y] == green_in_row(*frame, y, frame.width as int),
{
    let mut out: Vec<usize> = Vec::new();
    let mut y: usize = 0;
    while y < frame.height
        invariant
            frame.wf(),
            y <= frame.height,
            out@.len() == y,
            forall|k: int| 0 <= k < y ==> #[trigger] out@[k] == green_in_row(*frame, k, frame.width as int),
        decreases frame.height - y,
    {
        let c = row_green_count(frame, y);
        out.push(c);
        y = y + 1;
    }
    out
}

/// First and last row whose count reaches `min_count`; `None` when no row does.
pub fn field_row_bounds(counts: &Vec<usize>, min_count: usize) -> (r: Option<(usize, usize)>)
    ensures
        r is None <==> forall|y: int| 0 <= y < counts@.len() ==> #[trigger] counts@[y] < min_count,
        r matches Some((top, bottom)) ==> {
            &&& top <= bottom < counts@.len()
            &&& counts@[top as int] >= min_count && counts@[bottom as int] >= min_count
            &&& forall|y: int| 0 <= y < top ==> #[trigger] counts@[y] < min_count
            &&& forall|y: int| bottom < y < counts@.len() ==> #[trigger] counts@[y] < min_count
        },
{
    let mut top: usize = 0;
    while top < counts.len() && counts[top] < min_count
        invariant
            top <= counts@.len(),
            forall|y: int| 0 <= y < top ==> #[trigger] counts@[y] < min_count,
        decreases counts.len() - top,
    {
        top = top + 1;
    }
    if top == counts.len() {
        return None;
    }
    let mut bottom: usize = counts.len() - 1;
    while counts[bottom] < min_count
        invariant
            top <= bottom < counts@.len(),
            counts@[top as int] >= min_count,
            forall|y: int| bottom < y < counts@.len() ==> #[trigger] counts@[y] < min_count,
        decreases bottom,
    {
        bottom = bottom - 1;
    }
    Some((top, bottom))
}

/// Grass extent and pixel counts of one row.
#[derive(Debug, Clone, Copy, PartialEq, Eq, Structural)]
pub struct RowEdges {
    pub left: usize,
    pub right: usize,
    pub green_count: usize,
    pub line_count: usize,
}

/// The leftmost and rightmost grass pixel of row `row` with the row's grass
/// and line pixel counts; `None` when the row has no grass.
pub fn row_edges(frame: &RgbFrame, row: usize) -> (r: Option<RowEdges>)
    requires
        frame.wf(),
        row < frame.height,
    ensures
        r is None <==> forall|x: int| 0 <= x < frame.width ==> !#[trigger] frame.green_at(x, row as int),
        r matches Some(e) ==> {
            &&& e.left <= e.right < frame.width
            &&& frame.green_at(e.left as int, row as int) && frame.green_at(e.right as int, row as int)
            &&& forall|x: int| 0 <= x < e.left ==> !#[trigger] frame.green_at(x, row as int)
            &&& forall|x: int| e.right < x < frame.width ==> !#[trigger] frame.green_at(x, row as int)
            &&& e.green_count == green_in_row(*frame, row as int, frame.width as int)
            &&& e.line_count == line_in_row(*frame, row as int, frame.width as int)
        },
{
    let mut left: Option<usize> = None;
    let mut right: usize = 0;
    let mut green: usize = 0;
    let mut line: usize = 0;
    let mut x: usize = 0;
    while x < frame.width
        invariant
            frame.wf(),
            row < frame.height,
            x <= frame.width,
            green == green_in_row(*frame, row as int, x as int),
            line == line_in_row(*frame, row as int, x as int),
            left is None ==> forall|k: int| 0 <= k < x ==> !#[trigger] frame.green_at(k, row as int),
            left matches Some(l) ==> {
                &&& l <= right < x
                &&& frame.green_at(l as int, row as int) && frame.green_at(right as int, row as int)
                &&& forall|k: int| 0 <= k < l ==> !#[trigger] frame.green_at(k, row as int)
                &&& forall|k: int| right < k < x ==> !#[trigger] frame.green_at(k, row as int)
            },
        decreases frame.width - x,
    {
        proof { lemma_count_le(*frame, row as int, x as int); }
        let p = frame.get_pixel(x, row);
        if is_pitch_green(p) {
            green = green + 1;
            if left.is_none() {
                left = Some(x);
            }
            right = x;
        }
        if is_pitch_line(p) {
            line = line + 1;
        }
        x = x + 1;
    }
    match left {
        None => None,
        Some(l) => Some(RowEdges { left: l, right, green_count: green, line_count: line }),
    }
}

/// Rows of the band scanned for the halfway line: a sixth of the field
/// height either side of its middle row, within the field.
pub open spec fn center_band(top_y: int, bottom_y: int) -> (int, int) {
    let mid = top_y + (bottom_y - top_y) / 2;
    let sixth = (bottom_y - top_y) / 6;
    (if mid >= sixth { mid - sixth } else { 0 }, if mid + sixth <= bottom_y { mid + sixth } else { bottom_y })
}

/// Line pixels of column `x` inside the halfway-line band.
pub open spec fn center_score(f: RgbFrame, x: int, top_y: int, bottom_y: int) -> nat {
    line_in_column(f, x, center_band(top_y, bottom_y).0, center_band(top_y, bottom_y).1 + 1)
}

/// The column in `scan_left..=scan_right` with the most line pixels in the
/// band around the middle of rows `top_y..=bottom_y` (the first such column),
/// when some column has any; `None` when the scan range is empty or no
/// column has a line pixel.
pub fn detect_center_line_x(frame: &RgbFrame, top_y: usize, bottom_y: usize, scan_left: usize, scan_right: usize) -> (r: Option<usize>)
    requires
        frame.wf(),
        top_y <= bottom_y < frame.height,
        scan_right < frame.width,
    ensures
        r is None <==> (scan_right <= scan_left || forall|x: int| scan_left <= x <= scan_right
            ==> #[trigger] center_score(*frame, x, top_y as int, bottom_y as int) == 0),
        r matches Some(bx) ==> {
            &&& scan_left <= bx <= scan_right
            &&& center_score(*frame, bx as int, top_y as int, bottom_y as int) > 0
            &&& forall|x: int| scan_left <= x <= scan_right ==> #[trigger] center_score(*frame, x, top_y as int, bottom_y as int)
                <= center_score(*frame, bx as int, top_y as int, bottom_y as int)
            &&& forall|x: int| scan_left <= x < bx ==> #[trigger] center_score(*frame, x, top_y as int, bottom_y as int)
                < center_score(*frame, bx as int, top_y as int, bottom_y as int)
        },
{
    if scan_right <= scan_left {
        return None;
    }
    let span = bottom_y - top_y;
    let mid = top_y + span / 2;
    let sixth = span / 6;
    let band_top = if mid >= sixth { mid - sixth } else { 0 };
    let band_bottom = if mid + sixth <= bottom_y { mid + sixth } else { bottom_y };
    assert(center_band(top_y as int, bottom_y as int) == (band_top as int, band_bottom as int));
    let mut best_x: Option<usize> = None;
    let mut best_score: usize = 0;
    let mut x: usize = scan_left;
    while x <= scan_right
        invariant
            frame.wf(),
            scan_left <= x <= scan_right + 1,
            scan_right < frame.width,
            top_y <= bottom_y < frame.height,
            band_top <= band_bottom < frame.height,
            center_band(top_y as int, bottom_y as int) == (band_top as int, band_bottom as int),
            best_x is None ==> best_score == 0 && forall|k: int| scan_left <= k < x
                ==> #[trigger] center_score(*frame, k, top_y as int, bottom_y as int) == 0,
            best_x matches Some(b) ==> {
                &&& scan_left <= b < x
                &&& best_score == center_score(*frame, b as int, top_y as int, bottom_y as int)
                &&& best_score > 0
                &&& forall|k: int| scan_left <= k < x ==> #[trigger] center_score(*frame, k, top_y as int, bottom_y as int) <= best_score
                &&& forall|k: int| scan_left <= k < b ==> #[trigger] center_score(*frame, k, top_y as int, bottom_y as int) < best_score
            },
        decreases scan_right + 1 - x,
    {
        let mut count: usize = 0;
        let mut y: usize = band_top;
        while y <= band_bottom
            invariant
                frame.wf(),
                x < frame.width,
                band_top <= y <= band_bottom + 1,
                band_bottom < frame.height,
                count == line_in_column(*frame, x as int, band_top as int, y as int),
                count <= y - band_top,
            decreases band_bottom + 1 - y,
        {
            let p = frame.get_pixel(x, y);
            if is_pitch_line(p) {
                count = count + 1;
            }
            y = y + 1;
        }
        assert(count == center_score(*frame, x as int, top_y as int, bottom_y as int));
        if count > best_score {
            best_score = count;
            best_x = Some(x);
        }
        x = x + 1;
    }
    best_x
}

/// The five rows sampled for the field edges: top, quarter, middle,
/// three quarters and bottom of the grass rows.
pub open spec fn sample_rows_of(top: int, bottom: int) -> Seq<int> {
    seq![top, top + (bottom - top) / 4, top + (bottom - top) / 2, top + (bottom - top) * 3 / 4, bottom]
}

/// Row `y` has at least `min_green` grass pixels.
pub open spec fn grass_row(f: RgbFrame, y: int, min_green: usize) -> bool {
    green_in_row(f, y, f.width as int) >= min_green
}

/// Rows `top` and `bottom` are the first and last rows with at least
/// `min_green` grass pixels.
pub open spec fn grass_bounds(f: RgbFrame, min_green: usize, top: int, bottom: int) -> bool {
    &&& 0 <= top <= bottom < f.height
    &&& grass_row(f, top, min_green)
    &&& grass_row(f, bottom, min_green)
    &&& forall|y: int| 0 <= y < top ==> !#[trigger] grass_row(f, y, min_green)
    &&& forall|y: int| bottom < y < f.height ==> !#[trigger] grass_row(f, y, min_green)
}

/// Row `y` has a grass pixel.
pub open spec fn row_has_grass(f: RgbFrame, y: int) -> bool {
    exists|x: int| 0 <= x < f.width && #[trigger] f.green_at(x, y)
}

/// The frame shows a field: it is at least 64x64, its grass rows span more
/// than an eighth of its height, and each of the five sampled rows has grass.
pub open spec fn field_visible(f: RgbFrame, min_green: usize) -> bool {
    &&& f.width >= 64 && f.height >= 64
    &&& exists|top: int, bottom: int| {
        &&& #[trigger] grass_bounds(f, min_green, top, bottom)
        &&& bottom > top + f.height / 8
        &&& forall|i: int| 0 <= i < 5 ==> row_has_grass(f, #[trigger] sample_rows_of(top, bottom)[i])
    }
}

proof fn lemma_grass_bounds_unique(f: RgbFrame, min_green: usize, t1: int, b1: int, t2: int, b2: int)
    requires
        grass_bounds(f, min_green, t1, b1),
        grass_bounds(f, min_green, t2, b2),
    ensures
        t1 == t2,
        b1 == b2,
{
    if t1 < t2 {
        assert(grass_row(f, t1, min_green));
    }
    if t2 < t1 {
        assert(grass_row(f, t2, min_green));
    }
    if b1 < b2 {
        assert(grass_row(f, b2, min_green));
    }
    if b2 < b1 {
        assert(grass_row(f, b1, min_green));
    }
}

/// What the grass scan of a frame found: the first and last grass rows, the
/// five sampled rows with their grass edges, and the grass and line pixel
/// totals over those rows.
#[derive(Debug, Clone)]
pub struct FieldScan {
    pub top_y: usize,
    pub bottom_y: usize,
    pub sample_rows: Vec<usize>,
    pub edges: Vec<RowEdges>,
    pub green_pixels: usize,
    pub line_pixels: usize,
}

/// Scans a frame for the visible field: frames smaller than 64x64 are
/// refused; the field spans from the first to the last row with at least
/// `min_green_per_row` grass pixels and must be taller than an eighth of the
/// frame; every sampled row must show grass.
pub fn scan_field(frame: &RgbFrame, min_green_per_row: usize) -> (r: Option<FieldScan>)
    requires
        frame.wf(),
    ensures
        r is Some <==> field_visible(*frame, min_green_per_row),
        (frame.width < 64 || frame.height < 64) ==> r is None,
        (frame.width >= 64 && frame.height >= 64 && forall|y: int| 0 <= y < frame.height
            ==> !#[trigger] grass_row(*frame, y, min_green_per_row)) ==> r is None,
        r matches Some(sc) ==> {
            &&& frame.width >= 64 && frame.height >= 64
            &&& sc.top_y <= sc.bottom_y < frame.height
            &&& grass_row(*frame, sc.top_y as int, min_green_per_row)
            &&& grass_row(*frame, sc.bottom_y as int, min_green_per_row)
            &&& forall|y: int| 0 <= y < sc.top_y ==> !#[trigger] grass_row(*frame, y, min_green_per_row)
            &&& forall|y: int| sc.bottom_y < y < frame.height ==> !#[trigger] grass_row(*frame, y, min_green_per_row)
            &&& sc.bottom_y > sc.top_y + frame.height / 8
            &&& sc.sample_rows@.len() == 5 && sc.edges@.len() == 5
            &&& forall|i: int| 0 <= i < 5 ==> #[trigger] sc.sample_rows@[i] == sample_rows_of(sc.top_y as int, sc.bottom_y as int)[i]
            &&& forall|i: int| 0 <= i < 5 ==> {
                let e = #[trigger] sc.edges@[i];
                let y = sc.sample_rows@[i] as int;
                &&& e.left <= e.right < frame.width
                &&& frame.green_at(e.left as int, y) && frame.green_at(e.right as int, y)
                &&& (forall|x: int| 0 <= x < e.left ==> !#[trigger] frame.green_at(x, y))
                &&& (forall|x: int| e.right < x < frame.width ==> !#[trigger] frame.green_at(x, y))
                &&& e.green_count == green_in_row(*frame, y, frame.width as int)
                &&& e.line_count == line_in_row(*frame, y, frame.width as int)
            }
            &&& sc.green_pixels == sc.edges@[0].green_count + sc.edges@[1].green_count + sc.edges@[2].green_count
                + sc.edges@[3].green_count + sc.edges@[4].green_count
            &&& sc.line_pixels == sc.edges@[0].line_count + sc.edges@[1].line_count + sc.edges@[2].line_count
                + sc.edges@[3].line_count + sc.edges@[4].line_count
        },
{
    if frame.width < 64 || frame.height < 64 {
        return None;
    }
    let counts = row_green_counts(frame);
    let (top_y, bottom_y) = match field_row_bounds(&counts, min_green_per_row) {
        None => {
            assert forall|y: int| 0 <= y < frame.height implies !#[trigger] grass_row(*frame, y, min_green_per_row) by {
                assert(counts@[y] < min_green_per_row);
            }
            assert(!field_visible(*frame, min_green_per_row)) by {
                if field_visible(*frame, min_green_per_row) {
                    let (t, b) = choose|t: int, b: int| {
                        &&& #[trigger] grass_bounds(*frame, min_green_per_row, t, b)
                        &&& b > t + frame.height / 8
                        &&& forall|i: int| 0 <= i < 5 ==> row_has_grass(*frame, #[trigger] sample_rows_of(t, b)[i])
                    };
                    assert(grass_row(*frame, t, min_green_per_row));
                }
            }
            return None;
        },
        Some(b) => b,
    };
    assert forall|y: int| 0 <= y < top_y implies !#[trigger] grass_row(*frame, y, min_green_per_row) by {
        assert(counts@[y] < min_green_per_row);
    }
    assert forall|y: int| bottom_y < y < frame.height implies !#[trigger] grass_row(*frame, y, min_green_per_row) by {
        assert(counts@[y] < min_green_per_row);
    }
    assert(counts@[top_y as int] >= min_green_per_row);
    assert(counts@[bottom_y as int] >= min_green_per_row);
    assert(grass_bounds(*frame, min_green_per_row, top_y as int, bottom_y as int));
    if bottom_y - top_y <= frame.height / 8 {
        assert(!field_visible(*frame, min_green_per_row)) by {
            if field_visible(*frame, min_green_per_row) {
                let (t, b) = choose|t: int, b: int| {
                    &&& #[trigger] grass_bounds(*frame, min_green_per_row, t, b)
                    &&& b > t + frame.height / 8
                    &&& forall|i: int| 0 <= i < 5 ==> row_has_grass(*frame, #[trigger] sample_rows_of(t, b)[i])
                };
                lemma_grass_bounds_unique(*frame, min_green_per_row, t, b, top_y as int, bottom_y as int);
            }
        }
        return None;
    }
    let span = bottom_y - top_y;
    proof {
        assert(frame.data@.len() <= usize::MAX) by { let n = frame.data.len(); }
        assert(frame.height * 3 <= frame.width * frame.height * 3) by (nonlinear_arith)
            requires frame.width >= 64, frame.height >= 0;
    }
    let rows: Vec<usize> = vec![top_y, top_y + span / 4, top_y + span / 2, top_y + span * 3 / 4, bottom_y];
    assert(span * 3 / 4 <= span) by (nonlinear_arith) requires span >= 0;
    assert(rows@ =~= sample_rows_of(top_y as int, bottom_y as int).map_values(|v: int| v as usize));
    let mut edges: Vec<RowEdges> = Vec::new();
    let mut green: usize = 0;
    let mut line: usize = 0;
    let mut i: usize = 0;
    proof {
        assert(frame.width * 5 <= frame.width * frame.height) by (nonlinear_arith)
            requires frame.height >= 64, frame.width >= 0;
        assert(frame.data@.len() <= usize::MAX) by { let n = frame.data.len(); }
    }
    while i < 5
        invariant
            frame.wf(),
            i <= 5,
            rows@.len() == 5,
            forall|k: int| 0 <= k < 5 ==> #[trigger] rows@[k] == sample_rows_of(top_y as int, bottom_y as int)[k],
            top_y <= bottom_y < frame.height,
            grass_bounds(*frame, min_green_per_row, top_y as int, bottom_y as int),
            frame.width * 5 <= frame.width * frame.height,
            frame.width * frame.height * 3 <= usize::MAX,
            edges@.len() == i,
            green <= i * frame.width,
            line <= i * frame.width,
            forall|k: int| 0 <= k < i ==> {
                let e = #[trigger] edges@[k];
                let y = rows@[k] as int;
                &&& e.left <= e.right < frame.width
                &&& frame.green_at(e.left as int, y) && frame.green_at(e.right as int, y)
                &&& (forall|x: int| 0 <= x < e.left ==> !#[trigger] frame.green_at(x, y))
                &&& (forall|x: int| e.right < x < frame.width ==> !#[trigger] frame.green_at(x, y))
                &&& e.green_count == green_in_row(*frame, y, frame.width as int)
                &&& e.line_count == line_in_row(*frame, y, frame.width as int)
            },
            green == (if i > 0 { edges@[0].green_count as int } else { 0 }) + (if i > 1 { edges@[1].green_count as int } else { 0 })
                + (if i > 2 { edges@[2].green_count as int } else { 0 }) + (if i > 3 { edges@[3].green_count as int } else { 0 })
                + (if i > 4 { edges@[4].green_count as int } else { 0 }),
            line == (if i > 0 { edges@[0].line_count as int } else { 0 }) + (if i > 1 { edges@[1].line_count as int } else { 0 })
                + (if i > 2 { edges@[2].line_count as int } else { 0 }) + (if i > 3 { edges@[3].line_count as int } else { 0 })
                + (if i > 4 { edges@[4].line_count as int } else { 0 }),
        decreases 5 - i,
    {
        let row = rows[i];
        assert(row <= bottom_y);
        match row_edges(frame, row) {
            None => {
                assert(!field_visible(*frame, min_green_per_row)) by {
                    if field_visible(*frame, min_green_per_row) {
                        let (t, b) = choose|t: int, b: int| {
                            &&& #[trigger] grass_bounds(*frame, min_green_per_row, t, b)
                            &&& b > t + frame.height / 8
                            &&& forall|j: int| 0 <= j < 5 ==> row_has_grass(*frame, #[trigger] sample_rows_of(t, b)[j])
                        };
                        lemma_grass_bounds_unique(*frame, min_green_per_row, t, b, top_y as int, bottom_y as int);
                        assert(row_has_grass(*frame, sample_rows_of(t, b)[i as int]));
                        let x = choose|x: int| 0 <= x < frame.width && #[trigger] frame.green_at(x, row as int);
                        assert(frame.green_at(x, row as int));
                    }
                }
                return None;
            },
            Some(e) => {
                proof {
                    lemma_count_le(*frame, row as int, frame.width as int);
                    assert(i * frame.width + frame.width == (i + 1) * frame.width) by (nonlinear_arith);
                    assert((i + 1) * frame.width <= frame.width * 5) by (nonlinear_arith) requires i + 1 <= 5;
                }
                green = green + e.green_count;
                line = line + e.line_count;
                edges.push(e);
            },
        }
        i = i + 1;
    }
    assert(grass_row(*frame, top_y as int, min_green_per_row));
    assert forall|k: int| 0 <= k < 5 implies row_has_grass(*frame, #[trigger] sample_rows_of(top_y as int, bottom_y as int)[k]) by {
        let e = edges@[k];
        assert(frame.green_at(e.left as int, rows@[k] as int));
    }
    assert(field_visible(*frame, min_green_per_row));
    Some(FieldScan { top_y, bottom_y, sample_rows: rows, edges, green_pixels: green, line_pixels: line })
}

} // verus!

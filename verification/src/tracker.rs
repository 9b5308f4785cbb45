use vstd::prelude::*;

verus! {

/// Track `t` is matched in `m`.
pub open spec fn track_used(m: Seq<(usize, usize)>, t: usize) -> bool {
    exists|i: int| 0 <= i < m.len() && (#[trigger] m[i]).0 == t
}

/// Detection `d` is matched in `m`.
pub open spec fn det_used(m: Seq<(usize, usize)>, d: usize) -> bool {
    exists|i: int| 0 <= i < m.len() && (#[trigger] m[i]).1 == d
}

/// Greedy matching over candidate (track, detection) pairs taken in order
/// of preference: a pair is kept when neither its track nor its detection
/// has been matched by an earlier kept pair.
pub open spec fn greedy_matches(pairs: Seq<(usize, usize)>) -> Seq<(usize, usize)>
    decreases pairs.len(),
{
    if pairs.len() == 0 {
        Seq::empty()
    } else {
        let m = greedy_matches(pairs.drop_last());
        let p = pairs.last();
        if !track_used(m, p.0) && !det_used(m, p.1) { m.push(p) } else { m }
    }
}

/// Result of matching tracks to detections.
#[derive(Debug, Clone)]
pub struct MatchResult {
    pub matches: Vec<(usize, usize)>,
    pub unmatched_tracks: Vec<usize>,
    pub unmatched_dets: Vec<usize>,
}

/// `v` lists, in increasing order, exactly the indices below `n` for which `keep` holds.
pub open spec fn lists_exactly(v: Seq<usize>, n: nat, keep: spec_fn(usize) -> bool) -> bool {
    &&& forall|a: int, b: int| 0 <= a < b < v.len() ==> v[a] < v[b]
    &&& forall|a: int| 0 <= a < v.len() ==> #[trigger] v[a] < n && keep(v[a])
    &&& forall|i: usize| i < n && keep(i) ==> v.contains(i)
}

/// Greedily matches tracks to detections: `pairs` holds the candidate
/// (track, detection) pairs, best first; each pair is taken when neither side
/// is taken yet. Also lists the tracks and detections left unmatched.
pub fn greedy_match(num_tracks: usize, num_dets: usize, pairs: &Vec<(usize, usize)>) -> (r: MatchResult)
    requires
        forall|i: int| 0 <= i < pairs@.len() ==> (#[trigger] pairs@[i]).0 < num_tracks && pairs@[i].1 < num_dets,
    ensures
        r.matches@ == greedy_matches(pairs@),
        lists_exactly(r.unmatched_tracks@, num_tracks as nat, |t: usize| !track_used(r.matches@, t)),
        lists_exactly(r.unmatched_dets@, num_dets as nat, |d: usize| !det_used(r.matches@, d)),
{
    let mut used_t: Vec<bool> = Vec::new();
    let mut i: usize = 0;
    while i < num_tracks
        invariant
            i <= num_tracks,
            used_t@.len() == i,
            forall|k: int| 0 <= k < i ==> !used_t@[k],
        decreases num_tracks - i,
    {
        used_t.push(false);
        i = i + 1;
    }
    let mut used_d: Vec<bool> = Vec::new();
    let mut i: usize = 0;
    while i < num_dets
        invariant
            i <= num_dets,
            used_d@.len() == i,
            forall|k: int| 0 <= k < i ==> !used_d@[k],
        decreases num_dets - i,
    {
        used_d.push(false);
        i = i + 1;
    }
    let mut matches: Vec<(usize, usize)> = Vec::new();
    let mut k: usize = 0;
    while k < pairs.len()
        invariant
            k <= pairs@.len(),
            used_t@.len() == num_tracks,
            used_d@.len() == num_dets,
            forall|i: int| 0 <= i < pairs@.len() ==> (#[trigger] pairs@[i]).0 < num_tracks && pairs@[i].1 < num_dets,
            matches@ == greedy_matches(pairs@.take(k as int)),
            forall|t: int| 0 <= t < num_tracks ==> (#[trigger] used_t@[t] <==> track_used(matches@, t as usize)),
            forall|d: int| 0 <= d < num_dets ==> (#[trigger] used_d@[d] <==> det_used(matches@, d as usize)),
            forall|i: int| 0 <= i < matches@.len() ==> (#[trigger] matches@[i]).0 < num_tracks && matches@[i].1 < num_dets,
        decreases pairs.len() - k,
    {
        let p = pairs[k];
        proof {
            assert(pairs@.take(k + 1).drop_last() =~= pairs@.take(k as int));
            assert(pairs@.take(k + 1).last() == p);
        }
        if !used_t[p.0] && !used_d[p.1] {
            let ghost m0 = matches@;
            matches.push(p);
            used_t.set(p.0, true);
            used_d.set(p.1, true);
            proof {
                assert forall|t: int| 0 <= t < num_tracks implies (#[trigger] used_t@[t] <==> track_used(matches@, t as usize)) by {
                    if track_used(m0, t as usize) {
                        let w = choose|w: int| 0 <= w < m0.len() && (#[trigger] m0[w]).0 == t as usize;
                        assert(matches@[w] == m0[w]);
                    }
                    if track_used(matches@, t as usize) && t != p.0 {
                        let w = choose|w: int| 0 <= w < matches@.len() && (#[trigger] matches@[w]).0 == t as usize;
                        assert(w < m0.len());
                        assert(m0[w] == matches@[w]);
                    }
                    if t == p.0 {
                        assert(matches@[m0.len() as int] == p);
                    }
                }
                assert forall|d: int| 0 <= d < num_dets implies (#[trigger] used_d@[d] <==> det_used(matches@, d as usize)) by {
                    if det_used(m0, d as usize) {
                        let w = choose|w: int| 0 <= w < m0.len() && (#[trigger] m0[w]).1 == d as usize;
                        assert(matches@[w] == m0[w]);
                    }
                    if det_used(matches@, d as usize) && d != p.1 {
                        let w = choose|w: int| 0 <= w < matches@.len() && (#[trigger] matches@[w]).1 == d as usize;
                        assert(w < m0.len());
                        assert(m0[w] == matches@[w]);
                    }
                    if d == p.1 {
                        assert(matches@[m0.len() as int] == p);
                    }
                }
            }
        }
        k = k + 1;
    }
    assert(pairs@.take(pairs@.len() as int) =~= pairs@);
    let ghost m = matches@;
    let mut ut: Vec<usize> = Vec::new();
    let mut t: usize = 0;
    while t < num_tracks
        invariant
            t <= num_tracks,
            used_t@.len() == num_tracks,
            forall|x: int| 0 <= x < num_tracks ==> (#[trigger] used_t@[x] <==> track_used(m, x as usize)),
            forall|a: int, b: int| 0 <= a < b < ut@.len() ==> ut@[a] < ut@[b],
            forall|a: int| 0 <= a < ut@.len() ==> #[trigger] ut@[a] < t && !track_used(m, ut@[a]),
            forall|x: usize| x < t && !track_used(m, x) ==> ut@.contains(x),
        decreases num_tracks - t,
    {
        if !used_t[t] {
            let ghost o = ut@;
            ut.push(t);
            assert forall|x: usize| x < t + 1 && !track_used(m, x) implies ut@.contains(x) by {
                if x < t {
                    let w = choose|w: int| 0 <= w < o.len() && o[w] == x;
                    assert(ut@[w] == o[w]);
                } else {
                    assert(ut@[o.len() as int] == t);
                }
            }
        }
        t = t + 1;
    }
    let mut ud: Vec<usize> = Vec::new();
    let mut d: usize = 0;
    while d < num_dets
        invariant
            d <= num_dets,
            used_d@.len() == num_dets,
            forall|x: int| 0 <= x < num_dets ==> (#[trigger] used_d@[x] <==> det_used(m, x as usize)),
            forall|a: int, b: int| 0 <= a < b < ud@.len() ==> ud@[a] < ud@[b],
            forall|a: int| 0 <= a < ud@.len() ==> #[trigger] ud@[a] < d && !det_used(m, ud@[a]),
            forall|x: usize| x < d && !det_used(m, x) ==> ud@.contains(x),
        decreases num_dets - d,
    {
        if !used_d[d] {
            let ghost o = ud@;
            ud.push(d);
            assert forall|x: usize| x < d + 1 && !det_used(m, x) implies ud@.contains(x) by {
                if x < d {
                    let w = choose|w: int| 0 <= w < o.len() && o[w] == x;
                    assert(ud@[w] == o[w]);
                } else {
                    assert(ud@[o.len() as int] == d);
                }
            }
        }
        d = d + 1;
    }
    MatchResult { matches, unmatched_tracks: ut, unmatched_dets: ud }
}

/// Greedy matching pairs each track and each detection at most once, and
/// leaves no candidate pair with both sides unmatched.
pub proof fn lemma_greedy_matching_is_maximal(pairs: Seq<(usize, usize)>)
    ensures
        forall|i: int, j: int| 0 <= i < j < greedy_matches(pairs).len() ==>
            (#[trigger] greedy_matches(pairs)[i]).0 != (#[trigger] greedy_matches(pairs)[j]).0
            && greedy_matches(pairs)[i].1 != greedy_matches(pairs)[j].1,
        forall|k: int| 0 <= k < pairs.len() ==>
            track_used(greedy_matches(pairs), (#[trigger] pairs[k]).0) || det_used(greedy_matches(pairs), pairs[k].1),
        forall|i: int| 0 <= i < greedy_matches(pairs).len() ==> pairs.contains(#[trigger] greedy_matches(pairs)[i]),
    decreases pairs.len(),
{
    if pairs.len() > 0 {
        let d = pairs.drop_last();
        lemma_greedy_matching_is_maximal(d);
        let m = greedy_matches(d);
        let r = greedy_matches(pairs);
        let p = pairs.last();
        assert forall|k: int| 0 <= k < pairs.len() implies
            track_used(r, (#[trigger] pairs[k]).0) || det_used(r, pairs[k].1) by {
            if k < d.len() {
                assert(d[k] == pairs[k]);
                if track_used(m, d[k].0) {
                    let w = choose|w: int| 0 <= w < m.len() && (#[trigger] m[w]).0 == d[k].0;
                    assert(r[w] == m[w]);
                } else {
                    let w = choose|w: int| 0 <= w < m.len() && (#[trigger] m[w]).1 == d[k].1;
                    assert(r[w] == m[w]);
                }
            } else {
                if !track_used(m, p.0) && !det_used(m, p.1) {
                    assert(r[m.len() as int] == p);
                } else if track_used(m, p.0) {
                    let w = choose|w: int| 0 <= w < m.len() && (#[trigger] m[w]).0 == p.0;
                    assert(r[w] == m[w]);
                } else {
                    let w = choose|w: int| 0 <= w < m.len() && (#[trigger] m[w]).1 == p.1;
                    assert(r[w] == m[w]);
                }
            }
        }
        assert forall|i: int| 0 <= i < r.len() implies pairs.contains(#[trigger] r[i]) by {
            if i < m.len() {
                assert(r[i] == m[i]);
                let w = choose|w: int| 0 <= w < d.len() && d[w] == m[i];
                assert(pairs[w] == d[w]);
            } else {
                assert(r[i] == p);
                assert(pairs[pairs.len() - 1] == p);
            }
        }
        assert forall|i: int, j: int| 0 <= i < j < r.len() implies
            (#[trigger] r[i]).0 != (#[trigger] r[j]).0 && r[i].1 != r[j].1 by {
            if j < m.len() {
                assert(r[i] == m[i] && r[j] == m[j]);
            } else {
                assert(r[i] == m[i]);
                assert(r[j] == p);
                assert(!track_used(m, p.0));
                assert(!det_used(m, p.1));
            }
        }
    }
}

/// Bookkeeping of one track: its id, detector class, frames since it
/// started, frames since its last match, and number of matches.
#[derive(Debug, Clone, Copy, PartialEq, Eq, Structural)]
pub struct TrackLife {
    pub id: u32,
    pub class_id: u32,
    pub age: u32,
    pub time_since_update: u32,
    pub hits: u32,
}

/// The track-keeping side of the tracker: live tracks in creation order, the
/// next id to hand out, how long an unmatched track survives, and how many
/// matches confirm a track.
#[derive(Debug, Clone)]
pub struct ByteTracker {
    pub tracks: Vec<TrackLife>,
    pub next_id: u32,
    pub max_age: u32,
    pub min_hits: u32,
}

/// Selects the tracks that are still alive.
pub open spec fn alive(max_age: u32) -> spec_fn(TrackLife) -> bool {
    |t: TrackLife| t.time_since_update <= max_age
}

/// A track is reported when confirmed by enough matches or just matched.
pub open spec fn reported(t: TrackLife, min_hits: u32) -> bool {
    t.hits >= min_hits || t.time_since_update == 0
}

/// A track stays alive while it has gone at most `max_age` frames without a
/// match, and is reported once matched at least `min_hits` times or when it
/// was matched in the current frame.
pub proof fn lemma_track_life_rules(t: TrackLife, max_age: u32, min_hits: u32)
    ensures
        alive(max_age)(t) <==> t.time_since_update <= max_age,
        reported(t, min_hits) <==> (t.hits >= min_hits || t.time_since_update == 0),
        t.time_since_update == 0 ==> alive(max_age)(t) && reported(t, min_hits),
{
}

impl ByteTracker {
    /// Ids are handed out in increasing order starting at 1, and every live
    /// track holds an id below the next one.
    pub open spec fn wf(&self) -> bool {
        &&& self.next_id >= 1
        &&& forall|i: int, j: int| 0 <= i < j < self.tracks@.len() ==> self.tracks@[i].id < self.tracks@[j].id
        &&& forall|i: int| 0 <= i < self.tracks@.len() ==> 1 <= #[trigger] self.tracks@[i].id < self.next_id
    }

    /// A tracker with default limits: tracks survive 30 unmatched frames and
    /// are confirmed after 3 matches.
    pub fn new() -> (r: ByteTracker)
        ensures
            r.wf(),
            r.tracks@.len() == 0,
            r.next_id == 1,
            r.max_age == 30,
            r.min_hits == 3,
    {
        ByteTracker { tracks: Vec::new(), next_id: 1, max_age: 30, min_hits: 3 }
    }

    /// A tracker with the given limits.
    pub fn with_params(max_age: u32, min_hits: u32) -> (r: ByteTracker)
        ensures
            r.wf(),
            r.tracks@.len() == 0,
            r.next_id == 1,
            r.max_age == max_age,
            r.min_hits == min_hits,
    {
        ByteTracker { tracks: Vec::new(), next_id: 1, max_age, min_hits }
    }

    /// Number of tracks ever started.
    pub fn total_tracks(&self) -> (r: u32)
        requires
            self.wf(),
        ensures
            r == self.next_id - 1,
    {
        self.next_id - 1
    }

    /// Ages every track by one frame without a match.
    pub fn predict(&mut self)
        requires
            old(self).wf(),
            forall|i: int| 0 <= i < old(self).tracks@.len() ==> (#[trigger] old(self).tracks@[i]).age < u32::MAX
                && old(self).tracks@[i].time_since_update < u32::MAX,
        ensures
            final(self).wf(),
            final(self).next_id == old(self).next_id,
            final(self).max_age == old(self).max_age,
            final(self).min_hits == old(self).min_hits,
            final(self).tracks@.len() == old(self).tracks@.len(),
            forall|i: int| 0 <= i < old(self).tracks@.len() ==> #[trigger] final(self).tracks@[i] == (TrackLife {
                age: (old(self).tracks@[i].age + 1) as u32,
                time_since_update: (old(self).tracks@[i].time_since_update + 1) as u32,
                ..old(self).tracks@[i]
            }),
    {
        let mut i: usize = 0;
        while i < self.tracks.len()
            invariant
                i <= self.tracks@.len(),
                self.tracks@.len() == old(self).tracks@.len(),
                self.next_id == old(self).next_id,
                self.max_age == old(self).max_age,
                self.min_hits == old(self).min_hits,
                forall|k: int| 0 <= k < old(self).tracks@.len() ==> (#[trigger] old(self).tracks@[k]).age < u32::MAX
                    && old(self).tracks@[k].time_since_update < u32::MAX,
                forall|k: int| 0 <= k < i ==> #[trigger] self.tracks@[k] == (TrackLife {
                    age: (old(self).tracks@[k].age + 1) as u32,
                    time_since_update: (old(self).tracks@[k].time_since_update + 1) as u32,
                    ..old(self).tracks@[k]
                }),
                forall|k: int| i <= k < self.tracks@.len() ==> #[trigger] self.tracks@[k] == old(self).tracks@[k],
            decreases self.tracks.len() - i,
        {
            let t = self.tracks[i];
            self.tracks.set(i, TrackLife { age: t.age + 1, time_since_update: t.time_since_update + 1, ..t });
            i = i + 1;
        }
        proof {
            assert forall|a: int, b: int| 0 <= a < b < self.tracks@.len() implies self.tracks@[a].id < self.tracks@[b].id by {
                assert(self.tracks@[a].id == old(self).tracks@[a].id);
                assert(self.tracks@[b].id == old(self).tracks@[b].id);
            }
            assert forall|a: int| 0 <= a < self.tracks@.len() implies 1 <= #[trigger] self.tracks@[a].id < self.next_id by {
                assert(self.tracks@[a].id == old(self).tracks@[a].id);
            }
        }
    }

    /// Records a detection match for track `i`.
    pub fn mark_matched(&mut self, i: usize)
        requires
            old(self).wf(),
            i < old(self).tracks@.len(),
            old(self).tracks@[i as int].hits < u32::MAX,
        ensures
            final(self).wf(),
            final(self).next_id == old(self).next_id,
            final(self).max_age == old(self).max_age,
            final(self).min_hits == old(self).min_hits,
            final(self).tracks@ == old(self).tracks@.update(i as int, TrackLife {
                time_since_update: 0,
                hits: (old(self).tracks@[i as int].hits + 1) as u32,
                ..old(self).tracks@[i as int]
            }),
    {
        let t = self.tracks[i];
        self.tracks.set(i, TrackLife { time_since_update: 0, hits: t.hits + 1, ..t });
        proof {
            assert forall|a: int, b: int| 0 <= a < b < self.tracks@.len() implies self.tracks@[a].id < self.tracks@[b].id by {
                assert(self.tracks@[a].id == old(self).tracks@[a].id);
                assert(self.tracks@[b].id == old(self).tracks@[b].id);
            }
            assert forall|a: int| 0 <= a < self.tracks@.len() implies 1 <= #[trigger] self.tracks@[a].id < self.next_id by {
                assert(self.tracks@[a].id == old(self).tracks@[a].id);
            }
        }
    }

    /// Starts a new track for an unmatched detection of class `class_id`,
    /// returning its id.
    pub fn spawn(&mut self, class_id: u32) -> (id: u32)
        requires
            old(self).wf(),
            old(self).next_id < u32::MAX,
        ensures
            final(self).wf(),
            id == old(self).next_id,
            final(self).next_id == old(self).next_id + 1,
            final(self).max_age == old(self).max_age,
            final(self).min_hits == old(self).min_hits,
            final(self).tracks@ == old(self).tracks@.push(TrackLife {
                id, class_id, age: 1, time_since_update: 0, hits: 1 }),
    {
        let id = self.next_id;
        self.tracks.push(TrackLife { id, class_id, age: 1, time_since_update: 0, hits: 1 });
        self.next_id = self.next_id + 1;
        id
    }

    /// Drops the tracks left unmatched for more than `max_age` frames,
    /// returning the former positions of the tracks kept.
    pub fn prune(&mut self) -> (kept: Vec<usize>)
        requires
            old(self).wf(),
        ensures
            final(self).wf(),
            final(self).next_id == old(self).next_id,
            final(self).max_age == old(self).max_age,
            final(self).min_hits == old(self).min_hits,
            final(self).tracks@ == old(self).tracks@.filter(alive(old(self).max_age)),
            kept@.len() == final(self).tracks@.len(),
            forall|k: int| 0 <= k < kept@.len() ==> (#[trigger] kept@[k]) < old(self).tracks@.len()
                && final(self).tracks@[k] == old(self).tracks@[kept@[k] as int],
            lists_exactly(kept@, old(self).tracks@.len(), |i: usize| old(self).tracks@[i as int].time_since_update <= old(self).max_age),
    {
        let ghost src = self.tracks@;
        let mut out: Vec<TrackLife> = Vec::new();
        let mut kept: Vec<usize> = Vec::new();
        let mut i: usize = 0;
        while i < self.tracks.len()
            invariant
                i <= src.len(),
                self.tracks@ == src,
                self.tracks@ == old(self).tracks@,
                self.max_age == old(self).max_age,
                old(self).wf(),
                out@ == src.take(i as int).filter(alive(self.max_age)),
                kept@.len() == out@.len(),
                forall|k: int| 0 <= k < kept@.len() ==> (#[trigger] kept@[k]) < i && out@[k] == src[kept@[k] as int],
                forall|a: int, b: int| 0 <= a < b < kept@.len() ==> kept@[a] < kept@[b],
                forall|a: int| 0 <= a < kept@.len() ==> #[trigger] src[kept@[a] as int].time_since_update <= self.max_age,
                forall|x: int| 0 <= x < i && (#[trigger] src[x]).time_since_update <= self.max_age ==> kept@.contains(x as usize),
            decreases src.len() - i,
        {
            let t = self.tracks[i];
            proof {
                assert(src.take(i + 1) =~= src.take(i as int).push(t));
                src.take(i as int).lemma_filter_push(t, alive(self.max_age));
            }
            if t.time_since_update <= self.max_age {
                let ghost o = kept@;
                out.push(t);
                kept.push(i);
                assert forall|x: int| 0 <= x < i + 1 && (#[trigger] src[x]).time_since_update <= self.max_age implies kept@.contains(x as usize) by {
                    if x < i {
                        assert(o.contains(x as usize));
                        let w = choose|w: int| 0 <= w < o.len() && o[w] == x as usize;
                        assert(kept@[w] == o[w]);
                    } else {
                        assert(kept@[o.len() as int] == i);
                    }
                }
            }
            i = i + 1;
        }
        assert(src.take(src.len() as int) =~= src);
        assert forall|x: usize| x < src.len() && src[x as int].time_since_update <= self.max_age implies kept@.contains(x) by {
            assert(src[x as int].time_since_update <= self.max_age);
        }
        self.tracks = out;
        proof {
            assert forall|a: int, b: int| 0 <= a < b < self.tracks@.len() implies self.tracks@[a].id < self.tracks@[b].id by {
                assert(self.tracks@[a] == src[kept@[a] as int]);
                assert(self.tracks@[b] == src[kept@[b] as int]);
            }
            assert forall|a: int| 0 <= a < self.tracks@.len() implies 1 <= #[trigger] self.tracks@[a].id < self.next_id by {
                assert(self.tracks@[a] == src[kept@[a] as int]);
            }
        }
        kept
    }

    /// Positions of the tracks to report this frame: confirmed by enough
    /// matches, or matched in this frame.
    pub fn confirmed(&self) -> (r: Vec<usize>)
        ensures
            lists_exactly(r@, self.tracks@.len(), |i: usize| reported(self.tracks@[i as int], self.min_hits)),
    {
        let mut out: Vec<usize> = Vec::new();
        let mut i: usize = 0;
        while i < self.tracks.len()
            invariant
                i <= self.tracks@.len(),
                forall|a: int, b: int| 0 <= a < b < out@.len() ==> out@[a] < out@[b],
                forall|a: int| 0 <= a < out@.len() ==> #[trigger] out@[a] < i && reported(self.tracks@[out@[a] as int], self.min_hits),
                forall|x: int| 0 <= x < i && reported(#[trigger] self.tracks@[x], self.min_hits) ==> out@.contains(x as usize),
            decreases self.tracks.len() - i,
        {
            let t = self.tracks[i];
            if t.hits >= self.min_hits || t.time_since_update == 0 {
                let ghost o = out@;
                out.push(i);
                assert forall|x: int| 0 <= x < i + 1 && reported(#[trigger] self.tracks@[x], self.min_hits) implies out@.contains(x as usize) by {
                    if x < i {
                        assert(o.contains(x as usize));
                        let w = choose|w: int| 0 <= w < o.len() && o[w] == x as usize;
                        assert(out@[w] == o[w]);
                    } else {
                        assert(out@[o.len() as int] == i);
                    }
                }
            }
            i = i + 1;
        }
        assert forall|x: usize| x < self.tracks@.len() && reported(self.tracks@[x as int], self.min_hits) implies out@.contains(x) by {
            assert(reported(self.tracks@[x as int], self.min_hits));
        }
        out
    }
}

/// Track ids are never reused: the id handed out next differs from the id
/// of every live track, and live tracks have distinct ids.
pub proof fn lemma_track_ids_unique(t: ByteTracker)
    requires
        t.wf(),
    ensures
        forall|i: int| 0 <= i < t.tracks@.len() ==> #[trigger] t.tracks@[i].id != t.next_id,
        forall|i: int, j: int| 0 <= i < j < t.tracks@.len() ==> t.tracks@[i].id != t.tracks@[j].id,
{
}

} // verus!

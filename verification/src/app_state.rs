use vstd::prelude::*;
use crate::pitch_mapping::{is_fresh_manual, HomographyCalibration, PitchReferencePoint};
use crate::trim::{lemma_clamp_fixes_placed, lemma_sorted_is_own_stable_sort, lemma_push_apart_fixes_well_placed, placed, all_placed, RelevantSegment, starts_at, is_stable_sort_by_start, clamp_all, push_apart, well_placed, sort_by_start, lemma_push_apart_well_placed};

verus! {

broadcast use vstd::seq_lib::group_filter_ensures;

/// Frames of one segment, `start_idx..=end_idx` (empty when the ends are reversed).
pub open spec fn segment_frames(g: RelevantSegment) -> Seq<usize> {
    Seq::new(
        if g.start_idx <= g.end_idx { (g.end_idx - g.start_idx + 1) as nat } else { 0nat },
        |k: int| (g.start_idx + k) as usize,
    )
}

/// The frames of a list of segments, concatenated in list order.
pub open spec fn frames_of(s: Seq<RelevantSegment>) -> Seq<usize>
    decreases s.len(),
{
    if s.len() == 0 {
        Seq::empty()
    } else {
        frames_of(s.drop_last()) + segment_frames(s.last())
    }
}

/// Selects enabled segments.
pub open spec fn is_enabled() -> spec_fn(RelevantSegment) -> bool {
    |g: RelevantSegment| g.enabled
}

/// The frames of the enabled segments, in segment order.
pub open spec fn enabled_frames(s: Seq<RelevantSegment>) -> Seq<usize> {
    frames_of(s.filter(is_enabled()))
}

/// `p` is the first position of `x` in `s`.
pub open spec fn is_first_index(s: Seq<usize>, x: usize, p: int) -> bool {
    0 <= p < s.len() && s[p] == x && forall|k: int| 0 <= k < p ==> s[k] != x
}

/// The first position of `x` in `s`, when it occurs.
pub open spec fn first_index(s: Seq<usize>, x: usize) -> Option<int> {
    if s.contains(x) {
        Some(choose|p: int| is_first_index(s, x, p))
    } else {
        None
    }
}

proof fn lemma_first_index(s: Seq<usize>, x: usize, p: int)
    requires
        is_first_index(s, x, p),
    ensures
        first_index(s, x) == Some(p),
{
    assert(s.contains(x));
    let q = choose|q: int| is_first_index(s, x, q);
    assert(is_first_index(s, x, q));
    if q < p {
        assert(s[q] != x);
    } else if p < q {
        assert(s[p] != x);
    }
}

/// The frame-index state of the coach application: how many frames are
/// loaded, the playhead, the analysis range, the trim segments, playback
/// flags, the live-capture flags and the manual calibration selection.
#[derive(Debug, Clone)]
pub struct CoachApp {
    pub frame_count: usize,
    pub current_frame_idx: usize,
    pub analysis_start_idx: usize,
    pub analysis_end_idx: usize,
    pub playback_trimmed_only: bool,
    pub is_playing: bool,
    pub trim_segments: Option<Vec<RelevantSegment>>,
    pub homography_calibration: HomographyCalibration,
    pub selected_reference_point: usize,
    pub live_enabled: bool,
    pub live_requested: bool,
}

/// What the application has to do after a live-capture toggle.
#[derive(Debug, Clone, Copy, PartialEq, Eq, Structural)]
pub enum LiveToggle {
    /// Live capture was running and has been stopped; analysis goes idle.
    Stopped,
    /// No detector model is loaded.
    MissingModel,
    /// There is no capture source to read from.
    NoSources,
    /// The view was reset and live capture has to be started.
    Started,
}

/// Tab shown in the analysis panel.
#[derive(Debug, Clone, Copy, PartialEq, Eq, Structural)]
pub enum AnalysisTab {
    Coach,
    MatchPlan,
    FourView,
    Tracking,
    Heatmaps,
    PitchView,
    Insights,
    Report,
}

/// Browser whose cookies the video downloader may borrow.
#[derive(Debug, Clone, Copy, PartialEq, Eq, Structural)]
pub enum BrowserCookieSource {
    Chrome,
    Safari,
    Firefox,
}

impl BrowserCookieSource {
    /// Name of the browser as the downloader's `--cookies-from-browser` expects it.
    pub fn yt_dlp_name(self) -> (r: &'static str)
        ensures
            self == BrowserCookieSource::Chrome ==> r@ == "chrome"@,
            self == BrowserCookieSource::Safari ==> r@ == "safari"@,
            self == BrowserCookieSource::Firefox ==> r@ == "firefox"@,
    {
        match self {
            BrowserCookieSource::Chrome => "chrome",
            BrowserCookieSource::Safari => "safari",
            BrowserCookieSource::Firefox => "firefox",
        }
    }

    /// Display name of the browser.
    pub fn label(self) -> (r: &'static str)
        ensures
            self == BrowserCookieSource::Chrome ==> r@ == "Chrome"@,
            self == BrowserCookieSource::Safari ==> r@ == "Safari"@,
            self == BrowserCookieSource::Firefox ==> r@ == "Firefox"@,
    {
        match self {
            BrowserCookieSource::Chrome => "Chrome",
            BrowserCookieSource::Safari => "Safari",
            BrowserCookieSource::Firefox => "Firefox",
        }
    }
}

impl CoachApp {
    /// The trim segments, empty when there is no trim.
    pub open spec fn segs(&self) -> Seq<RelevantSegment> {
        match self.trim_segments {
            Some(v) => v@,
            None => Seq::empty(),
        }
    }

    /// Frames kept by the enabled trim segments, in segment order.
    pub open spec fn trimmed(&self) -> Seq<usize> {
        enabled_frames(self.segs())
    }

    /// Whether playback follows the trim.
    pub open spec fn follows_trim(&self) -> bool {
        self.playback_trimmed_only && self.trimmed().len() > 0
    }

    /// The playhead position as shown on the timeline.
    pub open spec fn spec_displayed_position(&self) -> usize {
        if self.playback_trimmed_only && self.trimmed().contains(self.current_frame_idx) {
            first_index(self.trimmed(), self.current_frame_idx)->0 as usize
        } else {
            self.current_frame_idx
        }
    }

    /// The frame the playhead lands on when the timeline is set to `d`.
    pub open spec fn spec_frame_for_position(&self, d: usize) -> usize {
        if self.playback_trimmed_only && d < self.trimmed().len() {
            self.trimmed()[d as int]
        } else if self.frame_count > 0 {
            if d <= self.frame_count - 1 { d } else { (self.frame_count - 1) as usize }
        } else {
            self.current_frame_idx
        }
    }

    /// The frame after the playhead during playback.
    pub open spec fn spec_next_frame(&self) -> usize {
        if self.frame_count == 0 {
            self.current_frame_idx
        } else if self.follows_trim() {
            if self.trimmed().contains(self.current_frame_idx) {
                let p = first_index(self.trimmed(), self.current_frame_idx)->0;
                self.trimmed()[(p + 1) % (self.trimmed().len() as int)]
            } else {
                self.trimmed()[0]
            }
        } else {
            ((self.current_frame_idx + 1) % (self.frame_count as int)) as usize
        }
    }

    /// A fresh application state with nothing loaded.
    pub fn new() -> (r: CoachApp)
        ensures
            r.frame_count == 0,
            r.current_frame_idx == 0,
            r.analysis_start_idx == 0,
            r.analysis_end_idx == 0,
            r.playback_trimmed_only,
            !r.is_playing,
            r.trim_segments is None,
            r.selected_reference_point == 0,
            !r.live_enabled,
            !r.live_requested,
            !r.homography_calibration.has_explicit_pitch_points,
            r.homography_calibration.image_points_set@ == seq![false, false, false, false],
    {
        CoachApp {
            frame_count: 0,
            current_frame_idx: 0,
            analysis_start_idx: 0,
            analysis_end_idx: 0,
            playback_trimmed_only: true,
            is_playing: false,
            trim_segments: None,
            homography_calibration: HomographyCalibration::default(),
            selected_reference_point: 0,
            live_enabled: false,
            live_requested: false,
        }
    }

    /// The selected analysis range `(first, last)`, clamped to the loaded
    /// frames and put in order; `None` when no frame is loaded.
    pub fn analysis_range(&self) -> (r: Option<(usize, usize)>)
        ensures
            self.frame_count == 0 <==> r is None,
            r matches Some((a, b)) ==> ({
                let m = self.frame_count - 1;
                let s = if self.analysis_start_idx <= m { self.analysis_start_idx as int } else { m };
                let e = if self.analysis_end_idx <= m { self.analysis_end_idx as int } else { m };
                &&& a == if s <= e { s } else { e }
                &&& b == if s <= e { e } else { s }
            }),
    {
        if self.frame_count == 0 {
            return None;
        }
        let max_idx = self.frame_count - 1;
        let start = if self.analysis_start_idx <= max_idx { self.analysis_start_idx } else { max_idx };
        let end = if self.analysis_end_idx <= max_idx { self.analysis_end_idx } else { max_idx };
        Some((if start <= end { start } else { end }, if start <= end { end } else { start }))
    }

    /// The enabled trim segments, in order.
    pub fn enabled_trim_segments(&self) -> (r: Vec<RelevantSegment>)
        ensures
            r@ == self.segs().filter(is_enabled()),
    {
        let mut out: Vec<RelevantSegment> = Vec::new();
        match &self.trim_segments {
            None => {
                assert(Seq::<RelevantSegment>::empty().filter(is_enabled()) =~= Seq::empty()) by {
                    reveal(Seq::filter);
                }
            },
            Some(segs) => {
                let mut i: usize = 0;
                while i < segs.len()
                    invariant
                        0 <= i <= segs.len(),
                        out@ == segs@.take(i as int).filter(is_enabled()),
                    decreases segs.len() - i,
                {
                    let g = segs[i];
                    proof {
                        assert(segs@.take(i + 1) =~= segs@.take(i as int).push(g));
                        segs@.take(i as int).lemma_filter_push(g, is_enabled());
                    }
                    if g.enabled {
                        out.push(g);
                    }
                    i = i + 1;
                }
                assert(segs@.take(segs.len() as int) =~= segs@);
            },
        }
        out
    }

    /// Every frame index kept by the enabled trim segments, segment by segment.
    pub fn trimmed_frame_indices(&self) -> (r: Vec<usize>)
        ensures
            r@ == self.trimmed(),
    {
        let enabled = self.enabled_trim_segments();
        let mut out: Vec<usize> = Vec::new();
        let mut i: usize = 0;
        while i < enabled.len()
            invariant
                0 <= i <= enabled.len(),
                out@ == frames_of(enabled@.take(i as int)),
            decreases enabled.len() - i,
        {
            let g = enabled[i];
            let ghost before = out@;
            if g.start_idx <= g.end_idx {
                let mut f: usize = g.start_idx;
                loop
                    invariant_except_break
                        g.start_idx <= f <= g.end_idx,
                        out@ == before + segment_frames(g).take(f - g.start_idx),
                    ensures
                        out@ == before + segment_frames(g).take(g.end_idx - g.start_idx + 1),
                    decreases g.end_idx - f,
                {
                    out.push(f);
                    assert(segment_frames(g).take(f - g.start_idx + 1)
                        =~= segment_frames(g).take(f - g.start_idx).push(f));
                    if f == g.end_idx {
                        break;
                    }
                    f = f + 1;
                }
                assert(segment_frames(g).take(g.end_idx - g.start_idx + 1) =~= segment_frames(g));
            } else {
                assert(segment_frames(g) =~= Seq::<usize>::empty());
                assert(out@ =~= before + segment_frames(g));
            }
            assert(enabled@.take(i + 1).drop_last() =~= enabled@.take(i as int));
            assert(enabled@.take(i + 1).last() == g);
            assert(out@ == frames_of(enabled@.take(i + 1)));
            i = i + 1;
        }
        assert(enabled@.take(enabled.len() as int) =~= enabled@);
        out
    }

    /// Number of positions on the playback timeline: the trimmed frames when
    /// playback follows a non-empty trim, otherwise every loaded frame.
    pub fn displayed_frame_count(&self) -> (r: usize)
        ensures
            r == if self.follows_trim() { self.trimmed().len() } else { self.frame_count as nat },
    {
        if self.playback_trimmed_only {
            let trimmed = self.trimmed_frame_indices();
            if trimmed.len() > 0 {
                return trimmed.len();
            }
        }
        self.frame_count
    }

    /// The playhead's position on the timeline: its first place among the
    /// trimmed frames when playback follows the trim and it is one of them,
    /// otherwise the frame index itself.
    pub fn displayed_frame_position(&self) -> (r: usize)
        ensures
            r == self.spec_displayed_position(),
    {
        if self.playback_trimmed_only {
            let trimmed = self.trimmed_frame_indices();
            match find_first(&trimmed, self.current_frame_idx) {
                Some(p) => {
                    proof { lemma_first_index(trimmed@, self.current_frame_idx, p as int); }
                    return p;
                },
                None => {},
            }
        }
        self.current_frame_idx
    }

    /// Moves the playhead to timeline position `displayed_idx`.
    pub fn set_displayed_frame_position(&mut self, displayed_idx: usize)
        ensures
            final(self).current_frame_idx == old(self).spec_frame_for_position(displayed_idx),
            *final(self) == (CoachApp { current_frame_idx: final(self).current_frame_idx, ..*old(self) }),
    {
        if self.playback_trimmed_only {
            let trimmed = self.trimmed_frame_indices();
            if displayed_idx < trimmed.len() {
                self.current_frame_idx = trimmed[displayed_idx];
                return;
            }
        }
        if self.frame_count > 0 {
            let max_idx = self.frame_count - 1;
            self.current_frame_idx = if displayed_idx <= max_idx { displayed_idx } else { max_idx };
        }
    }

    /// Advances the playhead by one frame, wrapping around; while playback
    /// follows the trim it steps through the trimmed frames.
    pub fn advance_playback_frame(&mut self)
        requires
            old(self).current_frame_idx < usize::MAX,
        ensures
            final(self).current_frame_idx == old(self).spec_next_frame(),
            *final(self) == (CoachApp { current_frame_idx: final(self).current_frame_idx, ..*old(self) }),
    {
        if self.frame_count == 0 {
            return;
        }
        if self.playback_trimmed_only {
            let trimmed = self.trimmed_frame_indices();
            match find_first(&trimmed, self.current_frame_idx) {
                Some(pos) => {
                    proof { lemma_first_index(trimmed@, self.current_frame_idx, pos as int); }
                    assert(pos < trimmed.len());
                    let next_pos = (pos + 1) % trimmed.len();
                    self.current_frame_idx = trimmed[next_pos];
                    return;
                },
                None => {},
            }
            if trimmed.len() > 0 {
                self.current_frame_idx = trimmed[0];
                return;
            }
        }
        self.current_frame_idx = (self.current_frame_idx + 1) % self.frame_count;
    }

    /// Moves the playhead to the start of trim segment `segment_idx` and
    /// pauses; nothing happens when there is no such segment.
    pub fn jump_to_segment(&mut self, segment_idx: usize)
        ensures
            segment_idx < old(self).segs().len() ==> *final(self) == (CoachApp {
                current_frame_idx: old(self).segs()[segment_idx as int].start_idx,
                is_playing: false,
                ..*old(self)
            }),
            segment_idx >= old(self).segs().len() ==> *final(self) == *old(self),
    {
        match &self.trim_segments {
            Some(segs) => {
                if segment_idx < segs.len() {
                    let start = segs[segment_idx].start_idx;
                    self.current_frame_idx = start;
                    self.is_playing = false;
                }
            },
            None => {},
        }
    }

    /// Puts the trim segments in shape after editing: each one clamped to the
    /// loaded frames with its ends in order, all stably sorted by start
    /// frame, then each pushed to start after its predecessor ends.
    pub fn normalize_trim_segments(&mut self)
        ensures
            (old(self).trim_segments is None || old(self).frame_count == 0) ==> *final(self) == *old(self),
            (old(self).trim_segments is Some && old(self).frame_count > 0) ==> ({
                let m = (old(self).frame_count - 1) as usize;
                &&& final(self).trim_segments is Some
                &&& exists|sorted: Seq<RelevantSegment>|
                    #[trigger] is_stable_sort_by_start(sorted, clamp_all(old(self).segs(), m))
                    && final(self).segs() == push_apart(sorted, m)
                &&& well_placed(final(self).segs(), m)
                &&& *final(self) == (CoachApp { trim_segments: final(self).trim_segments, ..*old(self) })
            }),
    {
        if self.frame_count == 0 {
            return;
        }
        let max_idx = self.frame_count - 1;
        let segs = match &self.trim_segments {
            None => { return; },
            Some(segs) => segs,
        };
        let mut clamped: Vec<RelevantSegment> = Vec::new();
        let mut i: usize = 0;
        while i < segs.len()
            invariant
                0 <= i <= segs.len(),
                clamped@ == clamp_all(segs@, max_idx).take(i as int),
            decreases segs.len() - i,
        {
            let g = segs[i];
            let s = if g.start_idx <= max_idx { g.start_idx } else { max_idx };
            let e = if g.end_idx <= max_idx { g.end_idx } else { max_idx };
            let c = RelevantSegment {
                start_idx: if e < s { e } else { s },
                end_idx: if e < s { s } else { e },
                enabled: g.enabled,
                tag: g.tag,
            };
            clamped.push(c);
            assert(clamped@ =~= clamp_all(segs@, max_idx).take(i + 1));
            i = i + 1;
        }
        assert(clamped@ =~= clamp_all(segs@, max_idx));
        let sorted = sort_by_start(&clamped);
        proof { lemma_stable_sort_members_placed(sorted@, clamped@, max_idx); }
        let mut out: Vec<RelevantSegment> = Vec::new();
        if sorted.len() > 0 {
            out.push(sorted[0]);
            assert(out@ =~= push_apart(sorted@.take(1), max_idx));
            let mut i: usize = 1;
            while i < sorted.len()
                invariant
                    1 <= i <= sorted.len(),
                    max_idx < usize::MAX,
                    out@ == push_apart(sorted@.take(i as int), max_idx),
                    all_placed(sorted@, max_idx),
                decreases sorted.len() - i,
            {
                proof {
                    lemma_push_apart_well_placed(sorted@.take(i as int), max_idx);
                }
                let prev = out[i - 1];
                assert(out@[i - 1].start_idx <= out@[i - 1].end_idx <= max_idx);
                let g = sorted[i];
                let fixed = if g.start_idx <= prev.end_idx {
                    let ns = if prev.end_idx + 1 <= max_idx { prev.end_idx + 1 } else { max_idx };
                    RelevantSegment {
                        start_idx: ns,
                        end_idx: if g.end_idx < ns { ns } else { g.end_idx },
                        enabled: g.enabled,
                        tag: g.tag,
                    }
                } else {
                    g
                };
                out.push(fixed);
                proof {
                    assert(sorted@.take(i + 1).drop_last() =~= sorted@.take(i as int));
                    assert(sorted@.take(i + 1).last() == g);
                }
                i = i + 1;
            }
            assert(sorted@.take(sorted.len() as int) =~= sorted@);
        } else {
            assert(out@ =~= push_apart(sorted@, max_idx));
        }
        proof {
            lemma_push_apart_well_placed(sorted@, max_idx);
            assert(is_stable_sort_by_start(sorted@, clamp_all(old(self).segs(), max_idx)));
        }
        self.trim_segments = Some(out);
    }

    /// The trim segments cut to frames `start_idx..=end_idx` and renumbered
    /// from `start_idx`, with the number of frames the enabled ones keep;
    /// `None` when no segment reaches into the range.
    pub fn trim_suggestion_for_range(&self, start_idx: usize, end_idx: usize) -> (r: Option<(Vec<RelevantSegment>, usize)>)
        requires
            kept_frames(cut_to_range(self.segs(), start_idx, end_idx)) <= usize::MAX,
        ensures
            r is None <==> cut_to_range(self.segs(), start_idx, end_idx).len() == 0,
            r matches Some((v, k)) ==> v@ == cut_to_range(self.segs(), start_idx, end_idx)
                && k == kept_frames(v@),
    {
        let segs = match &self.trim_segments {
            None => {
                return None;
            },
            Some(segs) => segs,
        };
        let mut out: Vec<RelevantSegment> = Vec::new();
        let mut kept: usize = 0;
        let mut i: usize = 0;
        while i < segs.len()
            invariant
                0 <= i <= segs.len(),
                segs@ == self.segs(),
                out@ == cut_to_range(segs@.take(i as int), start_idx, end_idx),
                kept == kept_frames(out@),
                kept_frames(cut_to_range(segs@, start_idx, end_idx)) <= usize::MAX,
            decreases segs.len() - i,
        {
            let g = segs[i];
            proof {
                assert(segs@.take(i + 1).drop_last() =~= segs@.take(i as int));
                assert(segs@.take(i + 1).last() == g);
                lemma_kept_frames_prefix(segs@, i + 1, start_idx, end_idx);
            }
            let os = if g.start_idx >= start_idx { g.start_idx } else { start_idx };
            let oe = if g.end_idx <= end_idx { g.end_idx } else { end_idx };
            if os <= oe {
                let c = RelevantSegment { start_idx: os - start_idx, end_idx: oe - start_idx, enabled: g.enabled, tag: g.tag };
                proof {
                    assert(out@.push(c).drop_last() =~= out@);
                }
                out.push(c);
                if g.enabled {
                    kept = kept + (c.end_idx - c.start_idx + 1);
                }
            }
            i = i + 1;
        }
        assert(segs@.take(segs.len() as int) =~= segs@);
        if out.len() == 0 {
            return None;
        }
        Some((out, kept))
    }

    /// The landmark chosen for the next manual calibration click.
    pub fn selected_reference_point(&self) -> (r: PitchReferencePoint)
        requires
            self.selected_reference_point < 4,
        ensures
            r == self.homography_calibration.reference_points[self.selected_reference_point as int],
    {
        self.homography_calibration.reference_points[self.selected_reference_point]
    }

    /// State after a video of `frame_count` frames has been decoded: the
    /// playhead on the first frame, the whole clip as analysis range, no trim
    /// yet, and a fresh manual calibration with its first point selected.
    pub fn video_loaded(&mut self, frame_count: usize)
        ensures
            *final(self) == (CoachApp {
                frame_count,
                current_frame_idx: 0,
                analysis_start_idx: 0,
                analysis_end_idx: if frame_count > 0 { (frame_count - 1) as usize } else { 0 },
                trim_segments: None,
                homography_calibration: final(self).homography_calibration,
                selected_reference_point: 0,
                ..*old(self)
            }),
            is_fresh_manual(final(self).homography_calibration),
    {
        self.frame_count = frame_count;
        self.current_frame_idx = 0;
        self.analysis_start_idx = 0;
        self.analysis_end_idx = if frame_count > 0 { frame_count - 1 } else { 0 };
        self.trim_segments = None;
        self.homography_calibration = HomographyCalibration::default();
        self.selected_reference_point = 0;
    }

    /// State while live capture shows its latest frame: a one-frame clip with
    /// the playhead and the analysis range on it.
    pub fn live_frame_shown(&mut self)
        ensures
            *final(self) == (CoachApp {
                frame_count: 1,
                current_frame_idx: 0,
                analysis_start_idx: 0,
                analysis_end_idx: 0,
                ..*old(self)
            }),
    {
        self.frame_count = 1;
        self.current_frame_idx = 0;
        self.analysis_start_idx = 0;
        self.analysis_end_idx = 0;
    }

    /// State after an analysis or capture error: live capture is off.
    pub fn analysis_failed(&mut self)
        ensures
            *final(self) == (CoachApp { live_enabled: false, live_requested: false, ..*old(self) }),
    {
        self.live_enabled = false;
        self.live_requested = false;
    }

    /// Clears every loaded frame and trim before live capture starts.
    pub fn reset_live_view(&mut self)
        ensures
            *final(self) == (CoachApp {
                frame_count: 0,
                current_frame_idx: 0,
                analysis_start_idx: 0,
                analysis_end_idx: 0,
                is_playing: false,
                trim_segments: None,
                ..*old(self)
            }),
    {
        self.frame_count = 0;
        self.current_frame_idx = 0;
        self.trim_segments = None;
        self.analysis_start_idx = 0;
        self.analysis_end_idx = 0;
        self.is_playing = false;
    }

    /// Switches live capture off when it runs; otherwise, with a model and at
    /// least one capture source, resets the view and switches it on.
    pub fn toggle_live_capture(&mut self, model_loaded: bool, source_count: usize) -> (r: LiveToggle)
        ensures
            old(self).live_enabled ==> r == LiveToggle::Stopped && *final(self) == (CoachApp {
                live_enabled: false, live_requested: false, ..*old(self) }),
            !old(self).live_enabled && !model_loaded ==> r == LiveToggle::MissingModel && *final(self) == *old(self),
            !old(self).live_enabled && model_loaded && source_count == 0 ==> r == LiveToggle::NoSources
                && *final(self) == *old(self),
            !old(self).live_enabled && model_loaded && source_count > 0 ==> r == LiveToggle::Started
                && *final(self) == (CoachApp {
                    frame_count: 0,
                    current_frame_idx: 0,
                    analysis_start_idx: 0,
                    analysis_end_idx: 0,
                    is_playing: false,
                    trim_segments: None,
                    live_enabled: true,
                    live_requested: true,
                    ..*old(self)
                }),
    {
        if self.live_enabled {
            self.live_enabled = false;
            self.live_requested = false;
            return LiveToggle::Stopped;
        }
        if !model_loaded {
            return LiveToggle::MissingModel;
        }
        if source_count == 0 {
            return LiveToggle::NoSources;
        }
        self.reset_live_view();
        self.live_enabled = true;
        self.live_requested = true;
        LiveToggle::Started
    }
}

/// First position of `x` in `v`.
pub fn find_first(v: &Vec<usize>, x: usize) -> (r: Option<usize>)
    ensures
        r matches Some(p) ==> is_first_index(v@, x, p as int),
        r is None <==> !v@.contains(x),
{
    let mut i: usize = 0;
    while i < v.len()
        invariant
            0 <= i <= v.len(),
            forall|k: int| 0 <= k < i ==> v@[k] != x,
        decreases v.len() - i,
    {
        if v[i] == x {
            return Some(i);
        }
        i = i + 1;
    }
    None
}

/// A segment cut to `start..=end` and renumbered from `start`, if it reaches into that range.
pub open spec fn cut_segment(g: RelevantSegment, start: usize, end: usize) -> Option<RelevantSegment> {
    let os = if g.start_idx >= start { g.start_idx } else { start };
    let oe = if g.end_idx <= end { g.end_idx } else { end };
    if os <= oe {
        Some(RelevantSegment { start_idx: (os - start) as usize, end_idx: (oe - start) as usize, ..g })
    } else {
        None
    }
}

/// Every segment reaching into `start..=end`, cut and renumbered, in order.
pub open spec fn cut_to_range(s: Seq<RelevantSegment>, start: usize, end: usize) -> Seq<RelevantSegment>
    decreases s.len(),
{
    if s.len() == 0 {
        Seq::empty()
    } else {
        let p = cut_to_range(s.drop_last(), start, end);
        match cut_segment(s.last(), start, end) {
            Some(c) => p.push(c),
            None => p,
        }
    }
}

/// Segment `g` shares a frame with `start..=end`: both ranges are in order
/// and each starts no later than the other ends.
pub open spec fn overlaps_range(g: RelevantSegment, start: usize, end: usize) -> bool {
    g.start_idx <= g.end_idx && start <= end && g.start_idx <= end && start <= g.end_idx
}

/// `c` is segment `g` cut to `start..=end` and renumbered from `start`: same
/// flag and tag, starting at the later of the two starts and ending at the
/// earlier of the two ends.
pub open spec fn is_cut_piece(c: RelevantSegment, g: RelevantSegment, start: usize, end: usize) -> bool {
    &&& c.enabled == g.enabled && c.tag == g.tag
    &&& c.start_idx + start >= g.start_idx && c.start_idx + start >= start
    &&& (c.start_idx + start == g.start_idx || c.start_idx == 0)
    &&& c.end_idx + start <= g.end_idx && c.end_idx + start <= end
    &&& (c.end_idx + start == g.end_idx || c.end_idx + start == end)
}

proof fn lemma_cut_segment_meaning(g: RelevantSegment, start: usize, end: usize)
    ensures
        cut_segment(g, start, end) is Some <==> overlaps_range(g, start, end),
        cut_segment(g, start, end) matches Some(c) ==> is_cut_piece(c, g, start, end),
{
}

/// Cutting segments to a range keeps exactly the segments that share a
/// frame with it: the cut list is empty only when no segment overlaps the
/// range, every overlapping segment appears cut and renumbered, and every
/// piece comes from an overlapping segment.
pub proof fn lemma_cut_to_range_meaning(s: Seq<RelevantSegment>, start: usize, end: usize)
    ensures
        cut_to_range(s, start, end).len() <= s.len(),
        cut_to_range(s, start, end).len() == 0 <==> forall|i: int| 0 <= i < s.len() ==> !overlaps_range(#[trigger] s[i], start, end),
        forall|i: int| 0 <= i < s.len() && overlaps_range(#[trigger] s[i], start, end) ==> exists|j: int|
            0 <= j < cut_to_range(s, start, end).len() && is_cut_piece(#[trigger] cut_to_range(s, start, end)[j], s[i], start, end),
        forall|j: int| 0 <= j < cut_to_range(s, start, end).len() ==> exists|i: int|
            0 <= i < s.len() && overlaps_range(#[trigger] s[i], start, end)
                && is_cut_piece(#[trigger] cut_to_range(s, start, end)[j], s[i], start, end),
    decreases s.len(),
{
    if s.len() > 0 {
        let d = s.drop_last();
        let g = s.last();
        let n = s.len() - 1;
        lemma_cut_to_range_meaning(d, start, end);
        lemma_cut_segment_meaning(g, start, end);
        let p = cut_to_range(d, start, end);
        let c = cut_to_range(s, start, end);
        assert forall|i: int| 0 <= i < n implies #[trigger] d[i] == s[i] by {}
        assert(s[n] == g);
        assert forall|j: int| 0 <= j < p.len() implies #[trigger] c[j] == p[j] by {}
        assert forall|i: int| 0 <= i < s.len() && overlaps_range(#[trigger] s[i], start, end) implies exists|j: int|
            0 <= j < c.len() && is_cut_piece(#[trigger] c[j], s[i], start, end) by {
            if i < n {
                assert(overlaps_range(d[i], start, end));
                let j = choose|j: int| 0 <= j < p.len() && is_cut_piece(#[trigger] p[j], d[i], start, end);
                assert(c[j] == p[j]);
            } else {
                assert(c[p.len() as int] == cut_segment(g, start, end)->0);
            }
        }
        assert forall|j: int| 0 <= j < c.len() implies exists|i: int|
            0 <= i < s.len() && overlaps_range(#[trigger] s[i], start, end) && is_cut_piece(#[trigger] c[j], s[i], start, end) by {
            if j < p.len() {
                let i = choose|i: int| 0 <= i < d.len() && overlaps_range(#[trigger] d[i], start, end) && is_cut_piece(#[trigger] p[j], d[i], start, end);
                assert(s[i] == d[i]);
            } else {
                assert(s[n] == g);
            }
        }
        if c.len() == 0 {
            assert forall|i: int| 0 <= i < s.len() implies !overlaps_range(#[trigger] s[i], start, end) by {
                if i < n {
                    assert(d[i] == s[i]);
                }
            }
        } else if cut_segment(g, start, end) is None {
            let i = choose|i: int| 0 <= i < d.len() && overlaps_range(#[trigger] d[i], start, end) && is_cut_piece(#[trigger] p[0], d[i], start, end);
            assert(s[i] == d[i]);
        }
    }
}

/// Frames kept by the enabled segments of a list (each counted once per segment).
pub open spec fn kept_frames(s: Seq<RelevantSegment>) -> nat
    decreases s.len(),
{
    if s.len() == 0 {
        0
    } else {
        kept_frames(s.drop_last()) + if s.last().enabled && s.last().start_idx <= s.last().end_idx {
            (s.last().end_idx - s.last().start_idx + 1) as nat
        } else {
            0nat
        }
    }
}

proof fn lemma_kept_frames_prefix(s: Seq<RelevantSegment>, i: int, start: usize, end: usize)
    requires
        0 <= i <= s.len(),
    ensures
        kept_frames(cut_to_range(s.take(i), start, end)) <= kept_frames(cut_to_range(s, start, end)),
    decreases s.len() - i,
{
    if i < s.len() {
        lemma_kept_frames_prefix(s, i + 1, start, end);
        assert(s.take(i + 1).drop_last() =~= s.take(i));
        let p = cut_to_range(s.take(i), start, end);
        match cut_segment(s.take(i + 1).last(), start, end) {
            Some(c) => { assert(p.push(c).drop_last() =~= p); },
            None => {},
        }
    } else {
        assert(s.take(i) =~= s);
    }
}

proof fn lemma_stable_sort_members_placed(sorted: Seq<RelevantSegment>, inp: Seq<RelevantSegment>, max_idx: usize)
    requires
        is_stable_sort_by_start(sorted, inp),
        all_placed(inp, max_idx),
    ensures
        all_placed(sorted, max_idx),
{
    assert forall|k: int| 0 <= k < sorted.len() implies #[trigger] placed(sorted[k], max_idx) by {
        let x = sorted[k];
        let v = x.start_idx;
        sorted.lemma_filter_contains(starts_at(v), k);
        assert(sorted.filter(starts_at(v)) == inp.filter(starts_at(v)));
        assert(inp.filter(starts_at(v)).contains(x));
        inp.lemma_filter_contains_rev(starts_at(v), x);
        assert(inp.contains(x));
        let j = choose|j: int| 0 <= j < inp.len() && inp[j] == x;
        assert(placed(inp[j], max_idx));
    }
}

/// Normalizing trim segments twice gives the same segments as normalizing
/// once: the second pass finds them clamped, ordered and apart.
pub proof fn lemma_normalize_idempotent(
    segs: Seq<RelevantSegment>,
    max_idx: usize,
    sorted1: Seq<RelevantSegment>,
    sorted2: Seq<RelevantSegment>,
)
    requires
        max_idx < usize::MAX,
        is_stable_sort_by_start(sorted1, clamp_all(segs, max_idx)),
        is_stable_sort_by_start(sorted2, clamp_all(push_apart(sorted1, max_idx), max_idx)),
    ensures
        push_apart(sorted2, max_idx) == push_apart(sorted1, max_idx),
{
    let c = clamp_all(segs, max_idx);
    assert forall|i: int| 0 <= i < c.len() implies #[trigger] placed(c[i], max_idx) by {}
    lemma_stable_sort_members_placed(sorted1, c, max_idx);
    lemma_push_apart_well_placed(sorted1, max_idx);
    let r1 = push_apart(sorted1, max_idx);
    assert forall|i: int| 0 <= i < r1.len() implies #[trigger] placed(r1[i], max_idx) by {
        assert(r1[i].start_idx <= r1[i].end_idx <= max_idx);
    }
    lemma_clamp_fixes_placed(r1, max_idx);
    lemma_sorted_is_own_stable_sort(sorted2, r1);
    lemma_push_apart_fixes_well_placed(r1, max_idx);
}

/// Setting the timeline to the playhead's displayed position leaves the
/// playhead where it was, as long as the playhead is a loaded frame and,
/// while playback follows the trim, either a trimmed frame or past the
/// number of trimmed frames. The position is then also within the timeline.
pub proof fn lemma_displayed_position_roundtrip(app: CoachApp)
    requires
        app.current_frame_idx < app.frame_count,
        app.trimmed().len() <= usize::MAX,
        app.playback_trimmed_only ==> (app.trimmed().contains(app.current_frame_idx)
            || app.trimmed().len() <= app.current_frame_idx),
    ensures
        app.spec_frame_for_position(app.spec_displayed_position()) == app.current_frame_idx,
        (!app.playback_trimmed_only || app.trimmed().contains(app.current_frame_idx)) ==>
            app.spec_displayed_position() < (if app.follows_trim() { app.trimmed().len() } else { app.frame_count as nat }),
{
    let t = app.trimmed();
    let x = app.current_frame_idx;
    if app.playback_trimmed_only && t.contains(x) {
        let p = choose|p: int| 0 <= p < t.len() && t[p] == x;
        let q = choose|q: int| is_first_index(t, x, q);
        assert(exists|q: int| is_first_index(t, x, q)) by {
            lemma_first_exists(t, x, p);
        }
        assert(is_first_index(t, x, q));
        assert(first_index(t, x) == Some(q));
        assert(app.spec_displayed_position() == q as usize);
        assert((q as usize) < t.len());
        assert(t[(q as usize) as int] == x);
    }
}

proof fn lemma_first_exists(t: Seq<usize>, x: usize, p: int)
    requires
        0 <= p < t.len(),
        t[p] == x,
    ensures
        exists|q: int| is_first_index(t, x, q),
    decreases p,
{
    if exists|k: int| 0 <= k < p && t[k] == x {
        let k = choose|k: int| 0 <= k < p && t[k] == x;
        lemma_first_exists(t, x, k);
    } else {
        assert(is_first_index(t, x, p));
    }
}

/// Playback never leaves the loaded frames, and while it follows the trim it
/// only visits trimmed frames.
pub proof fn lemma_playback_stays_in_view(app: CoachApp)
    requires
        app.frame_count > 0,
        forall|i: int| 0 <= i < app.trimmed().len() ==> #[trigger] app.trimmed()[i] < app.frame_count,
    ensures
        app.spec_next_frame() < app.frame_count,
        app.follows_trim() ==> app.trimmed().contains(app.spec_next_frame()),
{
    let t = app.trimmed();
    let x = app.current_frame_idx;
    if app.follows_trim() {
        if t.contains(x) {
            let p0 = choose|p: int| 0 <= p < t.len() && t[p] == x;
            lemma_first_exists(t, x, p0);
            let q = choose|q: int| is_first_index(t, x, q);
            assert(first_index(t, x) == Some(q));
            let n = (q + 1) % (t.len() as int);
            assert(0 <= n < t.len());
            assert(t[n] < app.frame_count);
        } else {
            assert(t[0] < app.frame_count);
        }
    }
}

/// Outside trimmed-only playback, or when no enabled trim frame exists,
/// advancing moves the playhead to the next frame of the clip, wrapping to
/// the first after the last; with nothing loaded it stays put. In
/// trimmed-only playback over a non-empty trim, a playhead on a trimmed
/// frame moves to the trimmed frame after its first occurrence (wrapping),
/// and one off the trim moves to the first trimmed frame.
pub proof fn lemma_advance_playback(app: CoachApp)
    ensures
        app.frame_count == 0 ==> app.spec_next_frame() == app.current_frame_idx,
        (app.frame_count > 0 && (!app.playback_trimmed_only || app.trimmed().len() == 0))
            ==> app.spec_next_frame() == (app.current_frame_idx + 1) % (app.frame_count as int),
        (app.frame_count > 0 && app.playback_trimmed_only && app.trimmed().len() > 0) ==> {
            let t = app.trimmed();
            &&& !t.contains(app.current_frame_idx) ==> app.spec_next_frame() == t[0]
            &&& forall|p: int| 0 <= p < t.len() && t[p] == app.current_frame_idx
                && (forall|q: int| 0 <= q < p ==> t[q] != app.current_frame_idx)
                ==> app.spec_next_frame() == #[trigger] t[(p + 1) % (t.len() as int)]
        },
{
    let t = app.trimmed();
    let x = app.current_frame_idx;
    if app.frame_count > 0 && app.playback_trimmed_only && t.len() > 0 {
        assert forall|p: int| 0 <= p < t.len() && t[p] == x && (forall|q: int| 0 <= q < p ==> t[q] != x)
            implies app.spec_next_frame() == #[trigger] t[(p + 1) % (t.len() as int)] by {
            assert(is_first_index(t, x, p));
            lemma_first_index(t, x, p);
        }
    }
}

/// Outside trimmed-only playback the timeline is the clip itself: the
/// displayed position is the current frame, and setting position `d` moves
/// the playhead to frame `d`, or to the last frame when `d` is past it.
pub proof fn lemma_plain_timeline(app: CoachApp, d: usize)
    requires
        !app.playback_trimmed_only,
        app.frame_count > 0,
    ensures
        app.spec_displayed_position() == app.current_frame_idx,
        d < app.frame_count ==> app.spec_frame_for_position(d) == d,
        d >= app.frame_count ==> app.spec_frame_for_position(d) == app.frame_count - 1,
{
}

} // verus!

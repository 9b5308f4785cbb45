use vstd::prelude::*;
use crate::text::{decimal, push_decimal, push_str};

verus! {

/// What a live capture reads: a display or a single window, by system id.
#[derive(Debug, Clone, Copy, PartialEq, Eq, Structural)]
pub enum CaptureTarget {
    Display(u32),
    Window(u32),
}

/// Name under which frames of a capture target are reported.
pub open spec fn capture_path(t: CaptureTarget) -> Seq<char> {
    match t {
        CaptureTarget::Display(id) => "live-display-"@ + decimal(id as nat),
        CaptureTarget::Window(id) => "live-window-"@ + decimal(id as nat),
    }
}

impl CaptureTarget {
    /// Name under which frames of this target are reported.
    pub fn path_label(&self) -> (r: String)
        ensures
            r@ == capture_path(*self),
    {
        match self {
            CaptureTarget::Display(id) => {
                let mut s = String::from_str("live-display-");
                push_decimal(&mut s, *id as u64);
                s
            },
            CaptureTarget::Window(id) => {
                let mut s = String::from_str("live-window-");
                push_decimal(&mut s, *id as u64);
                s
            },
        }
    }
}

/// A capture target with the label shown to the user.
#[derive(Debug)]
pub struct CaptureSource {
    pub target: CaptureTarget,
    pub label: String,
}

/// What the window server reports about one on-screen window.
#[derive(Debug)]
pub struct WindowInfo {
    pub window_id: Option<i64>,
    pub owner: Option<String>,
    pub title: Option<String>,
}

/// Whether a character has the Unicode `White_Space` property.
pub open spec fn is_white_space(c: char) -> bool {
    ('\u{9}' <= c <= '\u{d}') || c == ' ' || c == '\u{85}' || c == '\u{a0}' || c == '\u{1680}'
        || ('\u{2000}' <= c <= '\u{200a}') || c == '\u{2028}' || c == '\u{2029}' || c == '\u{202f}'
        || c == '\u{205f}' || c == '\u{3000}'
}

/// `s` without its leading white space.
pub open spec fn trim_start_spec(s: Seq<char>) -> Seq<char>
    decreases s.len(),
{
    if s.len() > 0 && is_white_space(s[0]) { trim_start_spec(s.drop_first()) } else { s }
}

/// `s` without its trailing white space.
pub open spec fn trim_end_spec(s: Seq<char>) -> Seq<char>
    decreases s.len(),
{
    if s.len() > 0 && is_white_space(s.last()) { trim_end_spec(s.drop_last()) } else { s }
}

/// `s` without leading and trailing white space.
pub open spec fn trim_spec(s: Seq<char>) -> Seq<char> {
    trim_end_spec(trim_start_spec(s))
}

/// std's `str::trim`: the slice without leading and trailing characters of
/// the Unicode `White_Space` property.
#[verifier::external_body]
pub(crate) fn trim_str(s: &str) -> (r: &str)
    ensures
        r@ == trim_spec(s@),
{
    s.trim()
}

/// The capture source for a reported window, or `None` for windows that are
/// not offered: those without an id, the window server itself, and the
/// untitled dock. The label is the owning application, followed by the
/// trimmed window title when there is one.
pub open spec fn window_source_spec(w: WindowInfo) -> Option<(CaptureTarget, Seq<char>)> {
    let owner = match w.owner { Some(o) => o@, None => "Unknown App"@ };
    let title = match w.title { Some(t) => t@, None => Seq::<char>::empty() };
    if w.window_id is None {
        None
    } else if owner == "Window Server"@ || (owner == "Dock"@ && title.len() == 0) {
        None
    } else {
        let t = trim_spec(title);
        Some((
            CaptureTarget::Window(w.window_id->0 as u32),
            if t.len() == 0 { owner } else { owner + " - "@ + t },
        ))
    }
}

/// The capture source for a reported window; see `window_source_spec`.
pub fn window_source(w: &WindowInfo) -> (r: Option<CaptureSource>)
    ensures
        window_source_spec(*w) is None <==> r is None,
        r matches Some(src) ==> window_source_spec(*w) == Some((src.target, src.label@)),
{
    let owner: String = match &w.owner {
        Some(o) => o.clone(),
        None => String::from_str("Unknown App"),
    };
    let title: String = match &w.title {
        Some(t) => t.clone(),
        None => String::new(),
    };
    let id = match w.window_id {
        None => { return None; },
        Some(id) => id,
    };
    let window_server = String::from_str("Window Server");
    let dock = String::from_str("Dock");
    if owner == window_server || (owner == dock && title.as_str().unicode_len() == 0) {
        return None;
    }
    let trimmed = trim_str(title.as_str());
    let label = if trimmed.unicode_len() == 0 {
        owner
    } else {
        let mut l = owner;
        push_str(&mut l, " - ");
        push_str(&mut l, trimmed);
        l
    };
    Some(CaptureSource { target: CaptureTarget::Window(id as u32), label })
}

/// The capture sources offered to the user: the main display first, then
/// every offered window in the order reported.
pub open spec fn sources_spec(ws: Seq<WindowInfo>) -> Seq<(CaptureTarget, Seq<char>)>
    decreases ws.len(),
{
    if ws.len() == 0 {
        seq![(CaptureTarget::Display(1), "Main Display"@)]
    } else {
        let s = sources_spec(ws.drop_last());
        match window_source_spec(ws.last()) {
            Some(x) => s.push(x),
            None => s,
        }
    }
}

/// Which windows are offered and how they are labelled: never a window
/// without an id, never the window server, never an untitled dock; any other
/// window is offered under its own id, labelled with its application alone
/// when its title is blank, otherwise with the application, " - " and the
/// title without surrounding white space. The main display always comes
/// first in the list of sources, followed by one entry per offered window.
pub proof fn lemma_window_sources(w: WindowInfo, ws: Seq<WindowInfo>)
    ensures
        w.window_id is None ==> window_source_spec(w) is None,
        (w.owner matches Some(o) && o@ == "Window Server"@) ==> window_source_spec(w) is None,
        (w.owner matches Some(o) && o@ == "Dock"@ && (w.title is None || w.title->0@.len() == 0))
            ==> window_source_spec(w) is None,
        (w.window_id is Some && w.owner is Some && w.owner->0@ != "Window Server"@ && w.owner->0@ != "Dock"@
            && w.title is Some) ==> window_source_spec(w) == Some((
                CaptureTarget::Window(w.window_id->0 as u32),
                if trim_spec(w.title->0@).len() == 0 {
                    w.owner->0@
                } else {
                    w.owner->0@ + " - "@ + trim_spec(w.title->0@)
                },
            )),
        sources_spec(ws).len() >= 1,
        sources_spec(ws)[0] == (CaptureTarget::Display(1), "Main Display"@),
    decreases ws.len(),
{
    if ws.len() > 0 {
        lemma_window_sources(w, ws.drop_last());
    }
}

/// Screen-capture session state: frames read so far, when it started, what
/// it reads, and the widest frame it keeps.
pub struct ScreenCapture {
    frame_index: u64,
    started_at: std::time::Instant,
    target: CaptureTarget,
    max_width: u32,
}

/// Declares std's monotonic clock reading.
#[verifier::external_type_specification]
#[verifier::external_body]
pub struct ExInstant(std::time::Instant);

/// std's `Instant::now`: the current reading of the monotonic clock (nothing
/// is stated of the value).
#[verifier::external_body]
fn instant_now() -> std::time::Instant {
    std::time::Instant::now()
}

impl ScreenCapture {
    /// A fresh capture session on `target`, keeping frames at most
    /// `max_width` pixels wide, started now.
    pub fn new(target: CaptureTarget, max_width: u32) -> (r: ScreenCapture)
        ensures
            r.frame_index() == 0,
            r.target() == target,
            r.max_width() == max_width,
    {
        ScreenCapture { frame_index: 0, started_at: instant_now(), target, max_width }
    }

    /// Number of frames read so far.
    pub closed spec fn frame_index(&self) -> u64 {
        self.frame_index
    }

    /// What the session reads.
    pub closed spec fn target(&self) -> CaptureTarget {
        self.target
    }

    /// Widest frame kept.
    pub closed spec fn max_width(&self) -> u32 {
        self.max_width
    }

    /// The clock reading taken when the session started.
    pub closed spec fn start_instant(&self) -> std::time::Instant {
        self.started_at
    }

    /// What the session reads.
    pub fn capture_target(&self) -> (r: CaptureTarget)
        ensures
            r == self.target(),
    {
        self.target
    }

    /// Widest frame kept.
    pub fn capture_max_width(&self) -> (r: u32)
        ensures
            r == self.max_width(),
    {
        self.max_width
    }

    /// Number of frames read so far.
    pub fn frames_read(&self) -> (r: u64)
        ensures
            r == self.frame_index(),
    {
        self.frame_index
    }

    /// When the session started.
    pub fn started_at(&self) -> (r: std::time::Instant)
        ensures
            r == self.start_instant(),
    {
        self.started_at
    }

    /// Numbers the next captured frame: returns its index and the number of
    /// frames read including it.
    pub fn next_frame_index(&mut self) -> (r: (u64, u64))
        requires
            old(self).frame_index() < u64::MAX,
        ensures
            r.0 == old(self).frame_index(),
            r.1 == old(self).frame_index() + 1,
            final(self).frame_index() == old(self).frame_index() + 1,
            final(self).target() == old(self).target(),
            final(self).max_width() == old(self).max_width(),
            final(self).start_instant() == old(self).start_instant(),
    {
        let idx = self.frame_index;
        self.frame_index = idx + 1;
        (idx, idx + 1)
    }

    /// The capture sources to offer, from the windows the window server
    /// reports: the main display first, then every offered window.
    pub fn available_sources(windows: &Vec<WindowInfo>) -> (r: Vec<CaptureSource>)
        ensures
            r@.len() == sources_spec(windows@).len(),
            forall|i: int| 0 <= i < r@.len() ==> (#[trigger] r@[i]).target == sources_spec(windows@)[i].0
                && r@[i].label@ == sources_spec(windows@)[i].1,
    {
        let mut out: Vec<CaptureSource> = Vec::new();
        out.push(CaptureSource { target: CaptureTarget::Display(1), label: String::from_str("Main Display") });
        let mut i: usize = 0;
        assert(sources_spec(windows@.take(0)) == seq![(CaptureTarget::Display(1), "Main Display"@)]);
        while i < windows.len()
            invariant
                i <= windows@.len(),
                out@.len() == sources_spec(windows@.take(i as int)).len(),
                forall|k: int| 0 <= k < out@.len() ==> (#[trigger] out@[k]).target == sources_spec(windows@.take(i as int))[k].0
                    && out@[k].label@ == sources_spec(windows@.take(i as int))[k].1,
            decreases windows.len() - i,
        {
            proof {
                assert(windows@.take(i + 1).drop_last() =~= windows@.take(i as int));
                assert(windows@.take(i + 1).last() == windows@[i as int]);
            }
            match window_source(&windows[i]) {
                Some(src) => { out.push(src); },
                None => {},
            }
            i = i + 1;
        }
        assert(windows@.take(windows@.len() as int) =~= windows@);
        out
    }
}

/// Byte `c` (0 red, 1 green, 2 blue) of pixel `(x, y)` converted from a BGRA
/// buffer whose rows are `bytes_per_row` bytes long: the pixel's bytes start at
/// `y * bytes_per_row + x * 4`, and a pixel whose red byte lies past the end of
/// the buffer stays black.
pub open spec fn rgb_from_bgra(bytes: Seq<u8>, bytes_per_row: int, x: int, y: int, c: int) -> u8 {
    let src = y * bytes_per_row + x * 4;
    if src + 2 < bytes.len() { bytes[src + 2 - c] } else { 0 }
}

proof fn lemma_pixel_order(yy: int, xx: int, cc: int, y: int, x: int, c: int, width: int)
    requires
        0 <= xx < width,
        0 <= x < width,
        0 <= cc < 3,
        0 <= c < 3,
        0 <= yy,
        0 <= y,
        yy < y || (yy == y && xx < x) || (yy == y && xx == x && cc < c),
    ensures
        (yy * width + xx) * 3 + cc < (y * width + x) * 3 + c,
{
    if yy < y {
        assert(yy * width + xx < y * width) by (nonlinear_arith)
            requires 0 <= xx < width, 0 <= yy < y;
    }
}

proof fn lemma_pixel_offset_bound(y: int, x: int, width: int, height: int, bytes_per_row: int)
    requires
        0 <= y < height,
        0 <= x < width,
        0 <= bytes_per_row,
        (height - 1) * bytes_per_row + (width - 1) * 4 + 2 <= usize::MAX,
        width * height * 3 <= usize::MAX,
    ensures
        y * bytes_per_row + x * 4 + 2 <= usize::MAX,
        y * bytes_per_row <= usize::MAX,
        (y * width + x) * 3 + 3 <= width * height * 3,
{
    assert(y * bytes_per_row <= (height - 1) * bytes_per_row) by (nonlinear_arith)
        requires 0 <= y <= height - 1, 0 <= bytes_per_row;
    assert((y * width + x) * 3 + 3 <= width * height * 3) by (nonlinear_arith)
        requires 0 <= y < height, 0 <= x < width;
}

/// Converts a captured BGRA buffer (`bytes_per_row` bytes per row, four bytes
/// per pixel) into packed RGB, row by row; pixels whose bytes lie past the end
/// of the buffer stay black.
pub fn bgra_to_rgb(bytes: &Vec<u8>, width: usize, height: usize, bytes_per_row: usize) -> (r: Vec<u8>)
    requires
        width * height * 3 <= usize::MAX,
        width == 0 || height == 0 || (height - 1) * bytes_per_row + (width - 1) * 4 + 2 <= usize::MAX,
    ensures
        r@.len() == width * height * 3,
        forall|y: int, x: int, c: int| 0 <= y < height && 0 <= x < width && 0 <= c < 3
            ==> #[trigger] r@[(y * width + x) * 3 + c] == rgb_from_bgra(bytes@, bytes_per_row as int, x, y, c),
{
    let mut out: Vec<u8> = Vec::new();
    if width == 0 || height == 0 {
        assert(width * height * 3 == 0) by (nonlinear_arith)
            requires width == 0 || height == 0;
        return out;
    }
    let mut y: usize = 0;
    while y < height
        invariant
            0 < width,
            0 < height,
            y <= height,
            width * height * 3 <= usize::MAX,
            (height - 1) * bytes_per_row + (width - 1) * 4 + 2 <= usize::MAX,
            out@.len() == y * width * 3,
            forall|yy: int, xx: int, c: int| 0 <= yy < y && 0 <= xx < width && 0 <= c < 3
                ==> #[trigger] out@[(yy * width + xx) * 3 + c] == rgb_from_bgra(bytes@, bytes_per_row as int, xx, yy, c),
        decreases height - y,
    {
        proof { lemma_pixel_offset_bound(y as int, 0, width as int, height as int, bytes_per_row as int); }
        let row_start = y * bytes_per_row;
        let mut x: usize = 0;
        while x < width
            invariant
                0 < width,
                0 < height,
                y < height,
                x <= width,
                row_start == y * bytes_per_row,
                width * height * 3 <= usize::MAX,
                (height - 1) * bytes_per_row + (width - 1) * 4 + 2 <= usize::MAX,
                out@.len() == (y * width + x) * 3,
                forall|yy: int, xx: int, c: int| 0 <= yy && 0 <= xx < width && 0 <= c < 3
                    && (yy < y || (yy == y && xx < x))
                    ==> #[trigger] out@[(yy * width + xx) * 3 + c] == rgb_from_bgra(bytes@, bytes_per_row as int, xx, yy, c),
            decreases width - x,
        {
            proof { lemma_pixel_offset_bound(y as int, x as int, width as int, height as int, bytes_per_row as int); }
            let src = row_start + x * 4;
            let ghost before = out@;
            let (red, green, blue) = if src + 2 < bytes.len() {
                (bytes[src + 2], bytes[src + 1], bytes[src])
            } else {
                (0u8, 0u8, 0u8)
            };
            out.push(red);
            out.push(green);
            out.push(blue);
            proof {
                let base = (y * width + x) * 3;
                assert(out@.len() == base + 3);
                assert(out@[base] == rgb_from_bgra(bytes@, bytes_per_row as int, x as int, y as int, 0));
                assert(out@[base + 1] == rgb_from_bgra(bytes@, bytes_per_row as int, x as int, y as int, 1));
                assert(out@[base + 2] == rgb_from_bgra(bytes@, bytes_per_row as int, x as int, y as int, 2));
                assert forall|yy: int, xx: int, c: int| 0 <= yy && 0 <= xx < width && 0 <= c < 3
                    && (yy < y || (yy == y && xx < x + 1))
                    implies #[trigger] out@[(yy * width + xx) * 3 + c] == rgb_from_bgra(bytes@, bytes_per_row as int, xx, yy, c) by {
                    if yy < y || (yy == y && xx < x) {
                        lemma_pixel_order(yy, xx, c, y as int, x as int, 0, width as int);
                        assert(out@[(yy * width + xx) * 3 + c] == before[(yy * width + xx) * 3 + c]);
                    } else {
                        assert(yy == y && xx == x);
                    }
                }
                assert((y * width + x + 1) * 3 == base + 3) by (nonlinear_arith)
                    requires base == (y * width + x) * 3;
            }
            x = x + 1;
        }
        proof {
            assert((y * width + width) * 3 == (y + 1) * width * 3) by (nonlinear_arith);
            assert forall|yy: int, xx: int, c: int| 0 <= yy < y + 1 && 0 <= xx < width && 0 <= c < 3
                implies #[trigger] out@[(yy * width + xx) * 3 + c] == rgb_from_bgra(bytes@, bytes_per_row as int, xx, yy, c) by {
                assert(yy < y || (yy == y && xx < width));
            }
        }
        y = y + 1;
    }
    assert(height * width * 3 == width * height * 3) by (nonlinear_arith);
    out
}

} // verus!

use vstd::prelude::*;
use crate::text::{push_decimal, push_str, decimal};

verus! {

/// How the current pitch mapping was created.
#[derive(Debug, Clone, Copy, PartialEq, Eq, Structural)]
pub enum CalibrationMode {
    Manual,
    Automatic,
}

impl CalibrationMode {
    /// Display text of the mode.
    pub fn label(&self) -> (r: &'static str)
        ensures
            *self == CalibrationMode::Manual ==> r@ == "Manual"@,
            *self == CalibrationMode::Automatic ==> r@ == "Automatic"@,
    {
        match self {
            CalibrationMode::Manual => "Manual",
            CalibrationMode::Automatic => "Automatic",
        }
    }
}

/// Named pitch landmarks usable for manual homography calibration.
#[derive(Debug, Clone, Copy, PartialEq, Eq, Hash, Structural)]
pub enum PitchReferencePoint {
    TopLeftCorner,
    TopRightCorner,
    BottomRightCorner,
    BottomLeftCorner,
    CenterSpot,
    CenterLineTop,
    CenterLineBottom,
    CenterCircleTop,
    CenterCircleBottom,
    LeftPenaltySpot,
    RightPenaltySpot,
    LeftPenaltyAreaTopRight,
    LeftPenaltyAreaBottomRight,
    RightPenaltyAreaTopLeft,
    RightPenaltyAreaBottomLeft,
}

/// Every landmark, in declaration order.
pub open spec fn all_reference_points() -> Seq<PitchReferencePoint> {
    seq![
        PitchReferencePoint::TopLeftCorner,
        PitchReferencePoint::TopRightCorner,
        PitchReferencePoint::BottomRightCorner,
        PitchReferencePoint::BottomLeftCorner,
        PitchReferencePoint::CenterSpot,
        PitchReferencePoint::CenterLineTop,
        PitchReferencePoint::CenterLineBottom,
        PitchReferencePoint::CenterCircleTop,
        PitchReferencePoint::CenterCircleBottom,
        PitchReferencePoint::LeftPenaltySpot,
        PitchReferencePoint::RightPenaltySpot,
        PitchReferencePoint::LeftPenaltyAreaTopRight,
        PitchReferencePoint::LeftPenaltyAreaBottomRight,
        PitchReferencePoint::RightPenaltyAreaTopLeft,
        PitchReferencePoint::RightPenaltyAreaBottomLeft,
    ]
}

/// Long label of a landmark.
pub open spec fn reference_label(p: PitchReferencePoint) -> Seq<char> {
    match p {
        PitchReferencePoint::TopLeftCorner => "Top-left corner"@,
        PitchReferencePoint::TopRightCorner => "Top-right corner"@,
        PitchReferencePoint::BottomRightCorner => "Bottom-right corner"@,
        PitchReferencePoint::BottomLeftCorner => "Bottom-left corner"@,
        PitchReferencePoint::CenterSpot => "Center spot"@,
        PitchReferencePoint::CenterLineTop => "Halfway line top touchline"@,
        PitchReferencePoint::CenterLineBottom => "Halfway line bottom touchline"@,
        PitchReferencePoint::CenterCircleTop => "Center circle top"@,
        PitchReferencePoint::CenterCircleBottom => "Center circle bottom"@,
        PitchReferencePoint::LeftPenaltySpot => "Left penalty spot"@,
        PitchReferencePoint::RightPenaltySpot => "Right penalty spot"@,
        PitchReferencePoint::LeftPenaltyAreaTopRight => "Left penalty box top-right"@,
        PitchReferencePoint::LeftPenaltyAreaBottomRight => "Left penalty box bottom-right"@,
        PitchReferencePoint::RightPenaltyAreaTopLeft => "Right penalty box top-left"@,
        PitchReferencePoint::RightPenaltyAreaBottomLeft => "Right penalty box bottom-left"@,
    }
}

/// Short label of a landmark, used next to markers on the video.
pub open spec fn reference_short_label(p: PitchReferencePoint) -> Seq<char> {
    match p {
        PitchReferencePoint::TopLeftCorner => "TL"@,
        PitchReferencePoint::TopRightCorner => "TR"@,
        PitchReferencePoint::BottomRightCorner => "BR"@,
        PitchReferencePoint::BottomLeftCorner => "BL"@,
        PitchReferencePoint::CenterSpot => "C"@,
        PitchReferencePoint::CenterLineTop => "HL-T"@,
        PitchReferencePoint::CenterLineBottom => "HL-B"@,
        PitchReferencePoint::CenterCircleTop => "CC-T"@,
        PitchReferencePoint::CenterCircleBottom => "CC-B"@,
        PitchReferencePoint::LeftPenaltySpot => "L-PS"@,
        PitchReferencePoint::RightPenaltySpot => "R-PS"@,
        PitchReferencePoint::LeftPenaltyAreaTopRight => "L-PB-T"@,
        PitchReferencePoint::LeftPenaltyAreaBottomRight => "L-PB-B"@,
        PitchReferencePoint::RightPenaltyAreaTopLeft => "R-PB-T"@,
        PitchReferencePoint::RightPenaltyAreaBottomLeft => "R-PB-B"@,
    }
}

impl PitchReferencePoint {
    /// Every landmark, in declaration order.
    pub fn all() -> (r: Vec<PitchReferencePoint>)
        ensures
            r@ == all_reference_points(),
    {
        let r = vec![
            PitchReferencePoint::TopLeftCorner,
            PitchReferencePoint::TopRightCorner,
            PitchReferencePoint::BottomRightCorner,
            PitchReferencePoint::BottomLeftCorner,
            PitchReferencePoint::CenterSpot,
            PitchReferencePoint::CenterLineTop,
            PitchReferencePoint::CenterLineBottom,
            PitchReferencePoint::CenterCircleTop,
            PitchReferencePoint::CenterCircleBottom,
            PitchReferencePoint::LeftPenaltySpot,
            PitchReferencePoint::RightPenaltySpot,
            PitchReferencePoint::LeftPenaltyAreaTopRight,
            PitchReferencePoint::LeftPenaltyAreaBottomRight,
            PitchReferencePoint::RightPenaltyAreaTopLeft,
            PitchReferencePoint::RightPenaltyAreaBottomLeft,
        ];
        assert(r@ =~= all_reference_points());
        r
    }

    /// Long label of the landmark.
    pub fn label(&self) -> (r: &'static str)
        ensures
            r@ == reference_label(*self),
    {
        match self {
            PitchReferencePoint::TopLeftCorner => "Top-left corner",
            PitchReferencePoint::TopRightCorner => "Top-right corner",
            PitchReferencePoint::BottomRightCorner => "Bottom-right corner",
            PitchReferencePoint::BottomLeftCorner => "Bottom-left corner",
            PitchReferencePoint::CenterSpot => "Center spot",
            PitchReferencePoint::CenterLineTop => "Halfway line top touchline",
            PitchReferencePoint::CenterLineBottom => "Halfway line bottom touchline",
            PitchReferencePoint::CenterCircleTop => "Center circle top",
            PitchReferencePoint::CenterCircleBottom => "Center circle bottom",
            PitchReferencePoint::LeftPenaltySpot => "Left penalty spot",
            PitchReferencePoint::RightPenaltySpot => "Right penalty spot",
            PitchReferencePoint::LeftPenaltyAreaTopRight => "Left penalty box top-right",
            PitchReferencePoint::LeftPenaltyAreaBottomRight => "Left penalty box bottom-right",
            PitchReferencePoint::RightPenaltyAreaTopLeft => "Right penalty box top-left",
            PitchReferencePoint::RightPenaltyAreaBottomLeft => "Right penalty box bottom-left",
        }
    }

    /// Short label of the landmark.
    pub fn short_label(&self) -> (r: &'static str)
        ensures
            r@ == reference_short_label(*self),
    {
        match self {
            PitchReferencePoint::TopLeftCorner => "TL",
            PitchReferencePoint::TopRightCorner => "TR",
            PitchReferencePoint::BottomRightCorner => "BR",
            PitchReferencePoint::BottomLeftCorner => "BL",
            PitchReferencePoint::CenterSpot => "C",
            PitchReferencePoint::CenterLineTop => "HL-T",
            PitchReferencePoint::CenterLineBottom => "HL-B",
            PitchReferencePoint::CenterCircleTop => "CC-T",
            PitchReferencePoint::CenterCircleBottom => "CC-B",
            PitchReferencePoint::LeftPenaltySpot => "L-PS",
            PitchReferencePoint::RightPenaltySpot => "R-PS",
            PitchReferencePoint::LeftPenaltyAreaTopRight => "L-PB-T",
            PitchReferencePoint::LeftPenaltyAreaBottomRight => "L-PB-B",
            PitchReferencePoint::RightPenaltyAreaTopLeft => "R-PB-T",
            PitchReferencePoint::RightPenaltyAreaBottomLeft => "R-PB-B",
        }
    }
}

/// Coarse 3x3 field area.
#[derive(Debug, Clone, Copy, PartialEq, Eq, Hash, Structural)]
pub enum PitchArea {
    DefensiveLeft,
    DefensiveCenter,
    DefensiveRight,
    MiddleLeft,
    MiddleCenter,
    MiddleRight,
    AttackingLeft,
    AttackingCenter,
    AttackingRight,
}

/// The area in length band `x_band` (0 defensive, 1 middle, 2 attacking) and
/// width band `y_band` (0 left, 1 center, 2 right); any other pair is the middle.
pub open spec fn spec_area_from_bands(x_band: int, y_band: int) -> PitchArea {
    if x_band == 0 && y_band == 0 { PitchArea::DefensiveLeft }
    else if x_band == 0 && y_band == 1 { PitchArea::DefensiveCenter }
    else if x_band == 0 && y_band == 2 { PitchArea::DefensiveRight }
    else if x_band == 1 && y_band == 0 { PitchArea::MiddleLeft }
    else if x_band == 1 && y_band == 2 { PitchArea::MiddleRight }
    else if x_band == 2 && y_band == 0 { PitchArea::AttackingLeft }
    else if x_band == 2 && y_band == 1 { PitchArea::AttackingCenter }
    else if x_band == 2 && y_band == 2 { PitchArea::AttackingRight }
    else { PitchArea::MiddleCenter }
}

/// Display text of an area.
pub open spec fn area_label(a: PitchArea) -> Seq<char> {
    match a {
        PitchArea::DefensiveLeft => "Defensive Left"@,
        PitchArea::DefensiveCenter => "Defensive Center"@,
        PitchArea::DefensiveRight => "Defensive Right"@,
        PitchArea::MiddleLeft => "Middle Left"@,
        PitchArea::MiddleCenter => "Middle Center"@,
        PitchArea::MiddleRight => "Middle Right"@,
        PitchArea::AttackingLeft => "Attacking Left"@,
        PitchArea::AttackingCenter => "Attacking Center"@,
        PitchArea::AttackingRight => "Attacking Right"@,
    }
}

/// Index of an area, row-major over (length band, width band).
pub open spec fn area_index(a: PitchArea) -> int {
    match a {
        PitchArea::DefensiveLeft => 0,
        PitchArea::DefensiveCenter => 1,
        PitchArea::DefensiveRight => 2,
        PitchArea::MiddleLeft => 3,
        PitchArea::MiddleCenter => 4,
        PitchArea::MiddleRight => 5,
        PitchArea::AttackingLeft => 6,
        PitchArea::AttackingCenter => 7,
        PitchArea::AttackingRight => 8,
    }
}

/// The area with a given index (inverse of `area_index` on 0..9).
pub open spec fn area_of_index(i: int) -> PitchArea {
    spec_area_from_bands(i / 3, i % 3)
}

/// The nine areas are laid out row by row over (length band, width band):
/// bands 0..3 each give the area with index `3 * x_band + y_band`, whose
/// length and width bands are those given; any other pair gives the middle
/// centre.
pub proof fn lemma_area_bands(x_band: int, y_band: int)
    ensures
        (0 <= x_band < 3 && 0 <= y_band < 3) ==> area_index(spec_area_from_bands(x_band, y_band)) == 3 * x_band + y_band,
        !(0 <= x_band < 3 && 0 <= y_band < 3) ==> spec_area_from_bands(x_band, y_band) == PitchArea::MiddleCenter,
{
}

impl PitchArea {
    /// The area for a pair of bands, as the pitch classifier combines them.
    pub fn from_bands(x_band: u8, y_band: u8) -> (r: PitchArea)
        ensures
            r == spec_area_from_bands(x_band as int, y_band as int),
    {
        match (x_band, y_band) {
            (0, 0) => PitchArea::DefensiveLeft,
            (0, 1) => PitchArea::DefensiveCenter,
            (0, 2) => PitchArea::DefensiveRight,
            (1, 0) => PitchArea::MiddleLeft,
            (1, 1) => PitchArea::MiddleCenter,
            (1, 2) => PitchArea::MiddleRight,
            (2, 0) => PitchArea::AttackingLeft,
            (2, 1) => PitchArea::AttackingCenter,
            (2, 2) => PitchArea::AttackingRight,
            _ => PitchArea::MiddleCenter,
        }
    }

    /// Display text of the area.
    pub fn label(&self) -> (r: &'static str)
        ensures
            r@ == area_label(*self),
    {
        match self {
            PitchArea::DefensiveLeft => "Defensive Left",
            PitchArea::DefensiveCenter => "Defensive Center",
            PitchArea::DefensiveRight => "Defensive Right",
            PitchArea::MiddleLeft => "Middle Left",
            PitchArea::MiddleCenter => "Middle Center",
            PitchArea::MiddleRight => "Middle Right",
            PitchArea::AttackingLeft => "Attacking Left",
            PitchArea::AttackingCenter => "Attacking Center",
            PitchArea::AttackingRight => "Attacking Right",
        }
    }

    /// Index of the area, row-major over (length band, width band).
    pub fn index(&self) -> (r: usize)
        ensures
            r as int == area_index(*self),
            r < 9,
    {
        match self {
            PitchArea::DefensiveLeft => 0,
            PitchArea::DefensiveCenter => 1,
            PitchArea::DefensiveRight => 2,
            PitchArea::MiddleLeft => 3,
            PitchArea::MiddleCenter => 4,
            PitchArea::MiddleRight => 5,
            PitchArea::AttackingLeft => 6,
            PitchArea::AttackingCenter => 7,
            PitchArea::AttackingRight => 8,
        }
    }
}

/// Every area's index names it back, and indices 0..9 name distinct areas.
pub proof fn lemma_area_index_roundtrip(a: PitchArea)
    ensures
        0 <= area_index(a) < 9,
        area_of_index(area_index(a)) == a,
{
}

/// Indices 0..9 name areas whose index reads back.
pub proof fn lemma_index_area_roundtrip(i: int)
    requires
        0 <= i < 9,
    ensures
        area_index(area_of_index(i)) == i,
{
}

/// Why four landmark clicks cannot yet be turned into a homography.
#[derive(Debug, Clone, Copy, PartialEq, Eq, Structural)]
pub enum CalibrationError {
    /// Two of the named landmarks coincide.
    DuplicateLandmarks,
    /// Image point `index` (0-based) has not been placed; it belongs to `landmark`.
    MissingImagePoint { index: usize, landmark: PitchReferencePoint },
}

/// The message shown for a calibration error.
pub open spec fn calibration_error_message(e: CalibrationError) -> Seq<char> {
    match e {
        CalibrationError::DuplicateLandmarks => "Calibration points must use 4 different pitch landmarks"@,
        CalibrationError::MissingImagePoint { index, landmark } =>
            "Set calibration point #"@ + decimal((index + 1) as nat) + " ("@ + reference_label(landmark)
                + ") before running analysis"@,
    }
}

impl CalibrationError {
    /// The message shown to the user.
    pub fn message(&self) -> (r: String)
        requires
            self matches CalibrationError::MissingImagePoint { index, .. } ==> index < usize::MAX,
        ensures
            r@ == calibration_error_message(*self),
    {
        match self {
            CalibrationError::DuplicateLandmarks => {
                String::from_str("Calibration points must use 4 different pitch landmarks")
            },
            CalibrationError::MissingImagePoint { index, landmark } => {
                let mut s = String::from_str("Set calibration point #");
                push_decimal(&mut s, (*index as u64) + 1);
                push_str(&mut s, " (");
                push_str(&mut s, landmark.label());
                push_str(&mut s, ") before running analysis");
                s
            },
        }
    }
}

/// Four image-to-pitch correspondences: which image points have been placed,
/// which landmarks they stand for, whether explicit pitch coordinates replace
/// the landmarks, and how the calibration was made. The coordinates
/// themselves travel beside this record.
#[derive(Debug, Clone, Copy)]
pub struct HomographyCalibration {
    pub image_points_set: [bool; 4],
    pub reference_points: [PitchReferencePoint; 4],
    pub has_explicit_pitch_points: bool,
    pub mode: CalibrationMode,
}

/// Number of placed image points.
pub open spec fn placed_count(s: [bool; 4]) -> nat {
    (if s[0] { 1nat } else { 0nat }) + (if s[1] { 1nat } else { 0nat })
        + (if s[2] { 1nat } else { 0nat }) + (if s[3] { 1nat } else { 0nat })
}

/// First index in `0..4` where landmark `i` repeats an earlier one, if any
/// (explicit pitch points make repeats harmless).
pub open spec fn first_duplicate_before(r: [PitchReferencePoint; 4], i: int) -> bool {
    exists|j: int| 0 <= j < i && r[j] == r[i]
}

/// The error `correspondences` reports: scanning points in order, a repeated
/// landmark (when no explicit pitch points are used) or a missing image point,
/// whichever comes first.
pub open spec fn spec_correspondence_error(c: HomographyCalibration, i: int) -> Option<CalibrationError>
    decreases 4 - i,
{
    if i < 0 || i >= 4 {
        None
    } else if !c.has_explicit_pitch_points && first_duplicate_before(c.reference_points, i) {
        Some(CalibrationError::DuplicateLandmarks)
    } else if !c.image_points_set[i] {
        Some(CalibrationError::MissingImagePoint { index: i as usize, landmark: c.reference_points[i] })
    } else {
        spec_correspondence_error(c, i + 1)
    }
}

/// A fresh manual calibration: nothing placed, the four corners as
/// landmarks, no explicit pitch points.
pub open spec fn is_fresh_manual(c: HomographyCalibration) -> bool {
    &&& c.image_points_set@ == seq![false, false, false, false]
    &&& c.reference_points@ == seq![
        PitchReferencePoint::TopLeftCorner,
        PitchReferencePoint::TopRightCorner,
        PitchReferencePoint::BottomRightCorner,
        PitchReferencePoint::BottomLeftCorner,
    ]
    &&& !c.has_explicit_pitch_points
    &&& c.mode == CalibrationMode::Manual
}

impl HomographyCalibration {
    /// A fresh manual calibration on the four corners with nothing placed.
    pub fn default() -> (r: HomographyCalibration)
        ensures
            is_fresh_manual(r),
            r.image_points_set@ == seq![false, false, false, false],
            r.reference_points@ == seq![
                PitchReferencePoint::TopLeftCorner,
                PitchReferencePoint::TopRightCorner,
                PitchReferencePoint::BottomRightCorner,
                PitchReferencePoint::BottomLeftCorner,
            ],
            !r.has_explicit_pitch_points,
            r.mode == CalibrationMode::Manual,
    {
        let r = HomographyCalibration {
            image_points_set: [false, false, false, false],
            reference_points: [
                PitchReferencePoint::TopLeftCorner,
                PitchReferencePoint::TopRightCorner,
                PitchReferencePoint::BottomRightCorner,
                PitchReferencePoint::BottomLeftCorner,
            ],
            has_explicit_pitch_points: false,
            mode: CalibrationMode::Manual,
        };
        assert(r.image_points_set@ =~= seq![false, false, false, false]);
        assert(r.reference_points@ =~= seq![
                PitchReferencePoint::TopLeftCorner,
                PitchReferencePoint::TopRightCorner,
                PitchReferencePoint::BottomRightCorner,
                PitchReferencePoint::BottomLeftCorner,
            ]);
        r
    }

    /// An automatic calibration: all four points placed, on the corners, with
    /// explicit pitch coordinates.
    pub fn from_auto_detected() -> (r: HomographyCalibration)
        ensures
            r.image_points_set@ == seq![true, true, true, true],
            r.reference_points@ == seq![
                PitchReferencePoint::TopLeftCorner,
                PitchReferencePoint::TopRightCorner,
                PitchReferencePoint::BottomRightCorner,
                PitchReferencePoint::BottomLeftCorner,
            ],
            r.has_explicit_pitch_points,
            r.mode == CalibrationMode::Automatic,
    {
        let r = HomographyCalibration {
            image_points_set: [true, true, true, true],
            reference_points: [
                PitchReferencePoint::TopLeftCorner,
                PitchReferencePoint::TopRightCorner,
                PitchReferencePoint::BottomRightCorner,
                PitchReferencePoint::BottomLeftCorner,
            ],
            has_explicit_pitch_points: true,
            mode: CalibrationMode::Automatic,
        };
        assert(r.image_points_set@ =~= seq![true, true, true, true]);
        assert(r.reference_points@ =~= seq![
                PitchReferencePoint::TopLeftCorner,
                PitchReferencePoint::TopRightCorner,
                PitchReferencePoint::BottomRightCorner,
                PitchReferencePoint::BottomLeftCorner,
            ]);
        r
    }

    /// How many of the four image points have been placed.
    pub fn completion_count(&self) -> (r: usize)
        ensures
            r == placed_count(self.image_points_set),
            r <= 4,
    {
        let mut n: usize = 0;
        if self.image_points_set[0] { n = n + 1; }
        if self.image_points_set[1] { n = n + 1; }
        if self.image_points_set[2] { n = n + 1; }
        if self.image_points_set[3] { n = n + 1; }
        n
    }

    /// Whether all four image points have been placed.
    pub fn is_ready(&self) -> (r: bool)
        ensures
            r == (placed_count(self.image_points_set) == 4),
            r == (forall|i: int| 0 <= i < 4 ==> self.image_points_set[i]),
    {
        self.completion_count() == 4
    }

    /// Checks that the four correspondences can be used: `Ok` exactly when
    /// every image point is placed and (without explicit pitch points) the
    /// landmarks are pairwise different; otherwise the first problem found.
    pub fn correspondences(&self) -> (r: Result<(), CalibrationError>)
        ensures
            r is Ok <==> spec_correspondence_error(*self, 0) is None,
            r matches Err(e) ==> spec_correspondence_error(*self, 0) == Some(e),
            r is Ok <==> (
                (forall|i: int| 0 <= i < 4 ==> self.image_points_set[i])
                && (!self.has_explicit_pitch_points ==> forall|i: int, j: int|
                    0 <= j < i < 4 ==> self.reference_points[i] != self.reference_points[j])),
    {
        let mut i: usize = 0;
        while i < 4
            invariant
                0 <= i <= 4,
                spec_correspondence_error(*self, 0) == spec_correspondence_error(*self, i as int),
                forall|k: int| 0 <= k < i ==> self.image_points_set[k],
                !self.has_explicit_pitch_points ==> forall|k: int, j: int|
                    0 <= j < k < i ==> self.reference_points[k] != self.reference_points[j],
            decreases 4 - i,
        {
            if !self.has_explicit_pitch_points {
                let mut j: usize = 0;
                while j < i
                    invariant
                        0 <= j <= i < 4,
                        !self.has_explicit_pitch_points,
                        spec_correspondence_error(*self, 0) == spec_correspondence_error(*self, i as int),
                        forall|k: int| 0 <= k < j ==> self.reference_points[k] != self.reference_points[i as int],
                    decreases i - j,
                {
                    if self.reference_points[j] == self.reference_points[i] {
                        assert(first_duplicate_before(self.reference_points, i as int));
                        return Err(CalibrationError::DuplicateLandmarks);
                    }
                    j = j + 1;
                }
                assert(!first_duplicate_before(self.reference_points, i as int));
            }
            if !self.image_points_set[i] {
                return Err(CalibrationError::MissingImagePoint { index: i, landmark: self.reference_points[i] });
            }
            i = i + 1;
        }
        Ok(())
    }
}

} // verus!

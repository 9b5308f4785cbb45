use football_coach_poc::pitch_mapping::{
    CalibrationError, CalibrationMode, HomographyCalibration, PitchArea, PitchReferencePoint,
};

#[test]
fn reference_points_are_listed_in_calibration_order() {
    let all = PitchReferencePoint::all();
    assert_eq!(all.len(), 15);
    assert_eq!(all[0], PitchReferencePoint::TopLeftCorner);
    assert_eq!(all[3], PitchReferencePoint::BottomLeftCorner);
    assert_eq!(all[4], PitchReferencePoint::CenterSpot);
    assert_eq!(all[14], PitchReferencePoint::RightPenaltyAreaBottomLeft);
}

#[test]
fn reference_point_labels() {
    assert_eq!(PitchReferencePoint::CenterLineTop.label(), "Halfway line top touchline");
    assert_eq!(PitchReferencePoint::LeftPenaltyAreaBottomRight.label(), "Left penalty box bottom-right");
    assert_eq!(PitchReferencePoint::CenterSpot.short_label(), "C");
    assert_eq!(PitchReferencePoint::RightPenaltyAreaTopLeft.short_label(), "R-PB-T");
    assert_eq!(CalibrationMode::Automatic.label(), "Automatic");
    assert_eq!(CalibrationMode::Manual.label(), "Manual");
}

#[test]
fn pitch_areas_from_bands_and_indices() {
    assert_eq!(PitchArea::from_bands(0, 0), PitchArea::DefensiveLeft);
    assert_eq!(PitchArea::from_bands(1, 1), PitchArea::MiddleCenter);
    assert_eq!(PitchArea::from_bands(2, 2), PitchArea::AttackingRight);
    assert_eq!(PitchArea::from_bands(7, 0), PitchArea::MiddleCenter);
    assert_eq!(PitchArea::AttackingLeft.label(), "Attacking Left");
    assert_eq!(PitchArea::AttackingLeft.index(), 6);
    for x in 0u8..3 {
        for y in 0u8..3 {
            let a = PitchArea::from_bands(x, y);
            assert_eq!(a.index(), (x as usize) * 3 + y as usize);
        }
    }
}

#[test]
fn fresh_calibration_reports_first_missing_point() {
    let c = HomographyCalibration::default();
    assert_eq!(c.completion_count(), 0);
    assert!(!c.is_ready());
    assert_eq!(c.mode, CalibrationMode::Manual);
    let err = c.correspondences().unwrap_err();
    assert_eq!(
        err,
        CalibrationError::MissingImagePoint { index: 0, landmark: PitchReferencePoint::TopLeftCorner }
    );
    assert_eq!(err.message(), "Set calibration point #1 (Top-left corner) before running analysis");
}

#[test]
fn partly_placed_calibration() {
    let mut c = HomographyCalibration::default();
    c.image_points_set = [true, true, false, true];
    assert_eq!(c.completion_count(), 3);
    assert!(!c.is_ready());
    let err = c.correspondences().unwrap_err();
    assert_eq!(err.message(), "Set calibration point #3 (Bottom-right corner) before running analysis");
}

#[test]
fn repeated_landmark_is_refused() {
    let mut c = HomographyCalibration::default();
    c.image_points_set = [true, true, true, true];
    c.reference_points[2] = PitchReferencePoint::TopLeftCorner;
    assert_eq!(c.correspondences(), Err(CalibrationError::DuplicateLandmarks));
    assert_eq!(
        CalibrationError::DuplicateLandmarks.message(),
        "Calibration points must use 4 different pitch landmarks"
    );
    c.has_explicit_pitch_points = true;
    assert_eq!(c.correspondences(), Ok(()));
}

#[test]
fn complete_calibrations_are_ready() {
    let mut c = HomographyCalibration::default();
    c.image_points_set = [true, true, true, true];
    assert!(c.is_ready());
    assert_eq!(c.correspondences(), Ok(()));
    let auto = HomographyCalibration::from_auto_detected();
    assert!(auto.is_ready());
    assert_eq!(auto.completion_count(), 4);
    assert_eq!(auto.mode, CalibrationMode::Automatic);
    assert!(auto.has_explicit_pitch_points);
    assert_eq!(auto.correspondences(), Ok(()));
}

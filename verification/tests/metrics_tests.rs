use football_coach_poc::metrics::{
    area_band_total, area_counts, dominant_area, most_common_phase, occupation_alerts, parse_phase_label,
    pressing_zone_summary, team_area_counts, OccupationAlertKind, PhaseLabel, PitchZone, TeamId,
};
use football_coach_poc::pitch_mapping::PitchArea;

#[test]
fn team_names_and_opponents() {
    assert_eq!(TeamId::TeamA.label(), "Team A");
    assert_eq!(TeamId::TeamB.label(), "Team B");
    assert_eq!(TeamId::TeamA.other(), TeamId::TeamB);
    assert_eq!(TeamId::TeamB.other().other(), TeamId::TeamB);
    assert_eq!(TeamId::TeamB.index(), 1);
}

#[test]
fn phase_labels_parse_back() {
    let all = [
        PhaseLabel::BuildUp,
        PhaseLabel::Progression,
        PhaseLabel::FinalThird,
        PhaseLabel::DefensiveBlock,
        PhaseLabel::HighPress,
        PhaseLabel::AttackingTransition,
        PhaseLabel::DefensiveTransition,
    ];
    for p in all {
        assert_eq!(parse_phase_label(p.label()), Some(p));
    }
    assert_eq!(PhaseLabel::BuildUp.label(), "Build-up");
    assert_eq!(parse_phase_label("High Press"), Some(PhaseLabel::HighPress));
    assert_eq!(parse_phase_label("high press"), None);
    assert_eq!(parse_phase_label(""), None);
}

#[test]
fn area_tally_and_dominant_area() {
    let areas = vec![
        PitchArea::MiddleLeft,
        PitchArea::AttackingRight,
        PitchArea::MiddleLeft,
        PitchArea::AttackingRight,
        PitchArea::DefensiveCenter,
    ];
    let counts = area_counts(&areas);
    assert_eq!(counts, vec![0, 1, 0, 2, 0, 0, 0, 0, 2]);
    assert_eq!(dominant_area(&counts), Some(PitchArea::MiddleLeft));
    assert_eq!(dominant_area(&area_counts(&vec![])), None);
    assert_eq!(dominant_area(&area_counts(&vec![PitchArea::AttackingCenter])), Some(PitchArea::AttackingCenter));
}

#[test]
fn most_common_phase_with_ties() {
    assert_eq!(most_common_phase(&vec![]), None);
    let phases = vec![PhaseLabel::HighPress, PhaseLabel::BuildUp, PhaseLabel::HighPress, PhaseLabel::FinalThird];
    assert_eq!(most_common_phase(&phases), Some(PhaseLabel::HighPress));
    let tie = vec![PhaseLabel::DefensiveTransition, PhaseLabel::Progression];
    assert_eq!(most_common_phase(&tie), Some(PhaseLabel::Progression));
}

#[test]
fn team_area_tally_and_lane_totals() {
    let pairs = vec![
        (TeamId::TeamA, PitchArea::AttackingLeft),
        (TeamId::TeamA, PitchArea::MiddleLeft),
        (TeamId::TeamA, PitchArea::MiddleLeft),
        (TeamId::TeamB, PitchArea::MiddleLeft),
        (TeamId::TeamB, PitchArea::DefensiveRight),
    ];
    let counts = team_area_counts(&pairs);
    assert_eq!(counts.len(), 18);
    assert_eq!(counts[3], 2);
    assert_eq!(counts[6], 1);
    assert_eq!(counts[9 + 3], 1);
    assert_eq!(counts[9 + 2], 1);
    let left = vec![PitchArea::AttackingLeft, PitchArea::MiddleLeft, PitchArea::DefensiveLeft];
    let right = vec![PitchArea::AttackingRight, PitchArea::MiddleRight, PitchArea::DefensiveRight];
    assert_eq!(area_band_total(&counts, TeamId::TeamA, &left), 3);
    assert_eq!(area_band_total(&counts, TeamId::TeamB, &left), 1);
    assert_eq!(area_band_total(&counts, TeamId::TeamB, &right), 1);
    assert_eq!(area_band_total(&counts, TeamId::TeamA, &vec![]), 0);
}

#[test]
fn occupation_alert_rules() {
    assert_eq!(
        occupation_alerts(5, 1, 2),
        vec![OccupationAlertKind::LeftSideBias, OccupationAlertKind::CentralWeak, OccupationAlertKind::WideOverload]
    );
    assert_eq!(
        occupation_alerts(2, 0, 6),
        vec![OccupationAlertKind::RightSideBias, OccupationAlertKind::CentralWeak, OccupationAlertKind::WideOverload]
    );
    assert_eq!(occupation_alerts(1, 5, 1), vec![OccupationAlertKind::CentralSpare]);
    assert_eq!(occupation_alerts(3, 3, 3), vec![]);
    assert_eq!(occupation_alerts(3, 0, 0), vec![OccupationAlertKind::CentralWeak, OccupationAlertKind::WideOverload]);
    assert_eq!(occupation_alerts(5, 4, 4), vec![]);
    assert_eq!(occupation_alerts(4, 0, 0), vec![OccupationAlertKind::LeftSideBias, OccupationAlertKind::CentralWeak, OccupationAlertKind::WideOverload]);
}

#[test]
fn occupation_alert_texts() {
    let k = OccupationAlertKind::CentralWeak;
    assert_eq!(k.title(), "Central occupation is weak");
    assert_eq!(
        k.description(TeamId::TeamB),
        "Team B are not occupying the central lane enough. The middle of the pitch may be available to the opponent."
    );
    assert_eq!(k.severity_hundredths(), 84);
    assert_eq!(OccupationAlertKind::WideOverload.severity_hundredths(), 58);
    assert_eq!(OccupationAlertKind::LeftSideBias.title(), "Left-side bias");
}

#[test]
fn pressing_zones() {
    assert_eq!(PitchZone::AttackingThird.label(), "Attacking Third");
    assert_eq!(pressing_zone_summary(&vec![]), None);
    let zones = vec![PitchZone::AttackingThird, PitchZone::MiddleThird, PitchZone::AttackingThird];
    assert_eq!(pressing_zone_summary(&zones), Some((PitchZone::AttackingThird, 2, 2)));
    let tie = vec![PitchZone::MiddleThird, PitchZone::DefensiveThird];
    assert_eq!(pressing_zone_summary(&tie), Some((PitchZone::DefensiveThird, 1, 0)));
}

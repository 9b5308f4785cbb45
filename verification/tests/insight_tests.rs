use football_coach_poc::match_analysis::{
    notes_summary, tally_ids, zones_summary, turnover_and_duel_events, BoxZone, CarrierSample, CrossSide, PitchLane, PitchThird,
};
use football_coach_poc::metrics::{PhaseLabel, TeamId};
use football_coach_poc::pitch_mapping::PitchArea;
use football_coach_poc::tactical_insights::{
    generate_area_insights, generate_phase_insight, generate_possession_insights, generate_support_insights,
    sort_by_importance, Importance, InsightCategory, TacticalInsight,
};

fn sample(carrier_id: u32, team: TeamId, close_to_ball: bool, nearest_opponent: Option<u32>) -> CarrierSample {
    CarrierSample { carrier_id, team, close_to_ball, nearest_opponent }
}

#[test]
fn zone_and_lane_labels() {
    assert_eq!(PitchThird::Attacking.label(), "Attacking Third");
    assert_eq!(PitchLane::Central.label(), "Central");
    assert_eq!(CrossSide::Right.label(), "Right");
    assert_eq!(BoxZone::SixYard.label(), "6-yard");
    assert_eq!(BoxZone::EdgeOfBox.label(), "Edge of box");
    assert_eq!(InsightCategory::Formation.label(), "Formation");
    assert_eq!(Importance::High.rank(), 0);
    assert_eq!(Importance::Low.rank(), 2);
}

#[test]
fn tally_in_order_of_first_appearance() {
    assert_eq!(tally_ids(&vec![7, 3, 7, 9, 3, 7]), vec![(7, 3), (3, 2), (9, 1)]);
    assert_eq!(tally_ids(&vec![]), vec![]);
    let ids = vec![5, 5, 5, 2, 8, 2, 5];
    let total: u32 = tally_ids(&ids).iter().map(|p| p.1).sum();
    assert_eq!(total as usize, ids.len());
}

#[test]
fn turnovers_and_lost_duels() {
    let samples = vec![
        sample(4, TeamId::TeamA, true, None),
        sample(4, TeamId::TeamA, true, Some(11)),
        sample(12, TeamId::TeamB, true, Some(5)),
        sample(12, TeamId::TeamB, false, None),
        sample(6, TeamId::TeamA, false, Some(12)),
        sample(8, TeamId::TeamA, true, Some(13)),
    ];
    let (turnovers, duels) = turnover_and_duel_events(&samples);
    assert_eq!(turnovers, vec![4, 12]);
    assert_eq!(duels, vec![5]);
    let (t, d) = turnover_and_duel_events(&vec![sample(1, TeamId::TeamA, true, Some(2))]);
    assert!(t.is_empty() && d.is_empty());
}

#[test]
fn possession_insights() {
    let none = generate_possession_insights(&vec![]);
    assert_eq!(none.len(), 1);
    assert_eq!(none[0].title, "Ball not consistently tracked");
    assert_eq!(none[0].importance, Importance::Medium);
    let r = generate_possession_insights(&vec![10, 4, 10, 4, 2]);
    assert_eq!(r.len(), 2);
    assert_eq!(r[0].title, "Most touches: Player #10");
    assert_eq!(r[0].description, "Player #10 had the most ball involvement with 2 proximity events.");
    assert_eq!(r[1].title, "Ball involvement");
    assert_eq!(r[1].description, "5 total touch events across 3 players.");
    assert_eq!(r[1].importance, Importance::Low);
    assert_eq!(r[0].category, InsightCategory::Possession);
}

#[test]
fn phase_and_support_insights() {
    let p = generate_phase_insight(PhaseLabel::HighPress);
    assert_eq!(p.title, "Main phase: High Press");
    assert_eq!(
        p.description,
        "Most of this clip looks like High Press. Useful for filtering clips by game phase instead of by highlight moment."
    );
    assert_eq!(p.importance, Importance::High);
    assert!(generate_support_insights(0, 0).is_empty());
    let s = generate_support_insights(3, 2);
    assert_eq!(s.len(), 2);
    assert_eq!(s[0].title, "Ball carrier support is often weak");
    assert!(s[0].description.starts_with("3 sampled moments showed fewer than two nearby support options"));
    assert_eq!(s[1].title, "Central receiver often missing");
    assert!(s[1].description.starts_with("2 sampled possession moments had no central receiver"));
    let only = generate_support_insights(0, 1);
    assert_eq!(only.len(), 1);
    assert_eq!(only[0].title, "Central receiver often missing");
}

#[test]
fn area_insights() {
    assert!(generate_area_insights(&vec![]).is_empty());
    let r = generate_area_insights(&vec![
        (9, PitchArea::AttackingLeft),
        (3, PitchArea::MiddleCenter),
        (5, PitchArea::MiddleCenter),
    ]);
    assert_eq!(r.len(), 2);
    assert_eq!(r[0].title, "Main occupation zone: Middle Center");
    assert_eq!(
        r[0].description,
        "2 tracked players spent most of their time in the Middle Center. Useful for spotting where the phase of play is happening."
    );
    assert_eq!(r[1].title, "Player #9 operating zone");
    assert_eq!(r[1].description, "Player #9 is spending most of the clip in the Attacking Left.");
}

#[test]
fn insights_sorted_by_importance_stably() {
    let mk = |t: &str, i: Importance| TacticalInsight::new(InsightCategory::General, t.to_string(), String::new(), i);
    let v = vec![mk("a", Importance::Low), mk("b", Importance::High), mk("c", Importance::Low), mk("d", Importance::Medium), mk("e", Importance::High)];
    let out = sort_by_importance(&v);
    let titles: Vec<&str> = out.iter().map(|x| x.title.as_str()).collect();
    assert_eq!(titles, vec!["b", "e", "d", "a", "c"]);
    let copy = out[0].duplicate();
    assert_eq!(copy.title, "b");
    assert_eq!(copy.importance, Importance::High);
}

#[test]
fn box_zone_summaries() {
    assert_eq!(zones_summary(&vec![]), "\u{2014}");
    assert_eq!(zones_summary(&vec![BoxZone::NearPost]), "Near post");
    let zones = vec![
        BoxZone::FarPost,
        BoxZone::NearPost,
        BoxZone::FarPost,
        BoxZone::SixYard,
        BoxZone::SixYard,
        BoxZone::SixYard,
    ];
    assert_eq!(zones_summary(&zones), "2\u{d7}Far post, 3\u{d7}6-yard, Near post");
    assert_eq!(zones_summary(&vec![BoxZone::PenaltySpot, BoxZone::EdgeOfBox]), "Edge of box, Penalty spot");
}

#[test]
fn zones_summary_ignores_recording_order() {
    let a = vec![BoxZone::FarPost, BoxZone::NearPost, BoxZone::FarPost, BoxZone::EdgeOfBox];
    let b = vec![BoxZone::EdgeOfBox, BoxZone::FarPost, BoxZone::FarPost, BoxZone::NearPost];
    assert_eq!(zones_summary(&a), zones_summary(&b));
    assert_eq!(zones_summary(&a), "2\u{d7}Far post, Edge of box, Near post");
}

#[test]
fn weak_player_notes() {
    assert_eq!(notes_summary("Coach note", true, true, true, true), "Coach note");
    assert_eq!(notes_summary("", false, false, false, false), "\u{2014}");
    assert_eq!(notes_summary("", true, false, true, false), "low activity, gives ball away");
    assert_eq!(notes_summary("", false, true, false, true), "slow, loses 1v1");
    assert_eq!(notes_summary("", true, true, true, true), "low activity, slow, gives ball away, loses 1v1");
}

use football_coach_poc::detection::{football_class_name, is_football_relevant, COCO_PERSON, COCO_SPORTS_BALL};

#[test]
fn football_classes_are_players_and_ball() {
    assert!(is_football_relevant(COCO_PERSON));
    assert!(is_football_relevant(COCO_SPORTS_BALL));
    assert!(!is_football_relevant(1));
    assert_eq!(football_class_name(0), "Player");
    assert_eq!(football_class_name(32), "Ball");
    assert_eq!(football_class_name(7), "Unknown");
}

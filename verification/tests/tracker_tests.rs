use football_coach_poc::tracker::{greedy_match, ByteTracker, TrackLife};

#[test]
fn greedy_matching_takes_best_pairs_first() {
    let r = greedy_match(2, 3, &vec![(0, 1), (1, 1), (1, 2), (0, 0)]);
    assert_eq!(r.matches, vec![(0, 1), (1, 2)]);
    assert!(r.unmatched_tracks.is_empty());
    assert_eq!(r.unmatched_dets, vec![0]);
    let none = greedy_match(3, 1, &vec![]);
    assert!(none.matches.is_empty());
    assert_eq!(none.unmatched_tracks, vec![0, 1, 2]);
    assert_eq!(none.unmatched_dets, vec![0]);
}

#[test]
fn tracker_lifecycle() {
    let mut t = ByteTracker::new();
    assert_eq!((t.max_age, t.min_hits), (30, 3));
    assert_eq!(t.spawn(0), 1);
    assert_eq!(t.spawn(32), 2);
    assert_eq!(t.total_tracks(), 2);
    assert_eq!(t.confirmed(), vec![0, 1]);
    t.predict();
    assert_eq!(t.tracks[0], TrackLife { id: 1, class_id: 0, age: 2, time_since_update: 1, hits: 1 });
    assert!(t.confirmed().is_empty());
    t.mark_matched(0);
    assert_eq!(t.tracks[0], TrackLife { id: 1, class_id: 0, age: 2, time_since_update: 0, hits: 2 });
    assert_eq!(t.confirmed(), vec![0]);
}

#[test]
fn stale_tracks_are_pruned() {
    let mut t = ByteTracker::with_params(1, 1);
    t.spawn(0);
    t.spawn(0);
    t.spawn(32);
    t.predict();
    t.mark_matched(1);
    t.predict();
    let kept = t.prune();
    assert_eq!(kept, vec![1]);
    assert_eq!(t.tracks.len(), 1);
    assert_eq!(t.tracks[0].id, 2);
    assert_eq!(t.spawn(0), 4);
    assert_eq!(t.confirmed(), vec![0, 1]);
}

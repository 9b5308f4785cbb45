use football_coach_poc::pitch_awareness::{
    build_detection_sampling_plan, detect_center_line_x, expand_sampled_frame_indices, field_row_bounds,
    is_pitch_green, is_pitch_line, merge_close_segments, relevant_runs, row_edges, row_green_count,
    row_green_counts, scan_field, GoalSideHint, RgbFrame, RowEdges, SampleRun, SegmentGroup,
};

fn pitch_frame(width: usize, height: usize) -> RgbFrame {
    let mut data = Vec::with_capacity(width * height * 3);
    for y in 0..height {
        for x in 0..width {
            let px: [u8; 3] = if (10..=50).contains(&y) {
                if x == 32 { [220, 220, 220] } else { [30, 130, 40] }
            } else {
                [0, 0, 0]
            };
            data.extend_from_slice(&px);
        }
    }
    RgbFrame { width, height, data }
}

#[test]
fn grass_and_line_colours() {
    assert!(is_pitch_green([40, 120, 50]));
    assert!(!is_pitch_green([100, 110, 50]));
    assert!(!is_pitch_green([10, 60, 10]));
    assert!(is_pitch_line([200, 210, 205]));
    assert!(!is_pitch_line([200, 240, 200]));
    assert!(!is_pitch_line([160, 200, 200]));
}

#[test]
fn goal_side_hints() {
    assert_eq!(GoalSideHint::Left.label(), "Left");
    assert!(GoalSideHint::Left.compatible(&GoalSideHint::Unknown));
    assert!(GoalSideHint::Right.compatible(&GoalSideHint::Right));
    assert!(!GoalSideHint::Left.compatible(&GoalSideHint::Right));
}

#[test]
fn sampling_plans() {
    assert_eq!(build_detection_sampling_plan(10, 3), vec![0, 3, 6, 9]);
    assert_eq!(build_detection_sampling_plan(5, 0), vec![0, 1, 2, 3, 4]);
    assert_eq!(build_detection_sampling_plan(0, 2), Vec::<usize>::new());
    assert_eq!(build_detection_sampling_plan(6, 3), vec![0, 3]);
}

#[test]
fn expanded_sample_frames() {
    assert_eq!(expand_sampled_frame_indices(&vec![2, 9], 11, 1), vec![1, 2, 3, 8, 9, 10]);
    assert_eq!(expand_sampled_frame_indices(&vec![0, 1], 4, 0), vec![0, 1]);
    assert_eq!(expand_sampled_frame_indices(&vec![3], 0, 2), Vec::<usize>::new());
    assert_eq!(expand_sampled_frame_indices(&vec![], 5, 2), Vec::<usize>::new());
}

#[test]
fn runs_of_relevant_samples() {
    let runs = relevant_runs(&vec![true, true, false, false, true, true], 12, 2, 2);
    assert_eq!(
        runs,
        vec![
            SampleRun { start_idx: 0, end_idx: 3, first_sample: 0, last_sample: 1 },
            SampleRun { start_idx: 8, end_idx: 11, first_sample: 4, last_sample: 5 },
        ]
    );
    let gap = relevant_runs(&vec![true, false, true], 5, 2, 4);
    assert_eq!(gap, vec![SampleRun { start_idx: 0, end_idx: 4, first_sample: 0, last_sample: 2 }]);
    assert!(relevant_runs(&vec![false, false], 4, 2, 4).is_empty());
}

#[test]
fn merging_close_segments() {
    let merged = merge_close_segments(&vec![(0, 3), (6, 9), (20, 25)], 3);
    assert_eq!(
        merged,
        vec![
            SegmentGroup { start_idx: 0, end_idx: 9, first: 0, last: 1 },
            SegmentGroup { start_idx: 20, end_idx: 25, first: 2, last: 2 },
        ]
    );
    assert_eq!(merge_close_segments(&vec![(0, 3), (6, 9)], 2).len(), 2);
    assert!(merge_close_segments(&vec![], 2).is_empty());
}

#[test]
fn rows_of_grass() {
    let f = pitch_frame(64, 64);
    assert_eq!(row_green_count(&f, 20), 63);
    assert_eq!(row_green_count(&f, 5), 0);
    let counts = row_green_counts(&f);
    assert_eq!(counts.len(), 64);
    assert_eq!(field_row_bounds(&counts, 11), Some((10, 50)));
    assert_eq!(field_row_bounds(&counts, 64), None);
    assert_eq!(row_edges(&f, 20), Some(RowEdges { left: 0, right: 63, green_count: 63, line_count: 1 }));
    assert_eq!(row_edges(&f, 5), None);
    assert_eq!(f.get_pixel(32, 20), [220, 220, 220]);
}

#[test]
fn halfway_line_column() {
    let f = pitch_frame(64, 64);
    assert_eq!(detect_center_line_x(&f, 10, 50, 0, 63), Some(32));
    assert_eq!(detect_center_line_x(&f, 10, 50, 0, 20), None);
    assert_eq!(detect_center_line_x(&f, 10, 50, 40, 40), None);
}

#[test]
fn field_scan() {
    let f = pitch_frame(64, 64);
    let scan = scan_field(&f, 11).unwrap();
    assert_eq!((scan.top_y, scan.bottom_y), (10, 50));
    assert_eq!(scan.sample_rows, vec![10, 20, 30, 40, 50]);
    assert_eq!(scan.edges.len(), 5);
    assert_eq!(scan.green_pixels, 5 * 63);
    assert_eq!(scan.line_pixels, 5);
    assert!(scan_field(&pitch_frame(32, 64), 5).is_none());
    assert!(scan_field(&f, 64).is_none());
}

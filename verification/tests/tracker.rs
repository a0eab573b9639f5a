//! Following objects across frames.
use deltax2sort::float::Float32;
use deltax2sort::vision::tracker::{
    areas_compatible, overlap_coeff, rect_area, rect_center, rect_intersection_area, Tracker,
};
use deltax2sort::vision::{DetectedObject, Rect};
use std::cell::Cell;

fn f(x: f32) -> Float32 {
    Float32 { bits: x.to_bits() }
}

fn detection_at(x: i32, y: i32) -> DetectedObject {
    detection_sized(x, y, 20, 20)
}

fn detection_sized(x: i32, y: i32, w: i32, h: i32) -> DetectedObject {
    DetectedObject {
        id: 0,
        rect: Rect::new(x, y, w, h),
        world_pos: None,
        class: None,
        confidence: f(0.0),
        timestamp: 0,
        seen_at: 0,
    }
}

#[test]
fn a_much_larger_blob_does_not_steal_a_small_tracks_identity() {
    let mut tracker = Tracker::new();
    tracker.update(vec![detection_sized(100, 100, 20, 20)], f(0.0)); // small part, id 1
    // A large blob (70x70 = 4900 px² vs 400) whose center is only ~21 px
    // away — well inside the 60 px radius, so distance alone would match —
    // must NOT steal the small track; it becomes its own track instead.
    tracker.update(vec![detection_sized(90, 90, 70, 70)], f(0.0));
    assert_eq!(
        tracker.tracks.len(),
        2,
        "the oversized blob must not steal the small track"
    );
    let small = tracker.tracks.iter().find(|t| t.id == 1).unwrap();
    assert_eq!(small.last_rect.width, 20, "small track kept its own box");
    assert_eq!(small.missed_frames, 1, "small track went unmatched this frame");
}

#[test]
fn a_split_blob_does_not_spawn_a_duplicate_track() {
    let mut tracker = Tracker::new();
    // Frame 1: the object appears whole.
    tracker.update(vec![detection_sized(100, 100, 40, 40)], f(0.0));
    // Frame 2: thresholding splits it into two overlapping blobs at the
    // same spot. One matches the track; the other overlaps it heavily and
    // must be suppressed, not spawn a second track (→ a duplicate Pick).
    tracker.update(
        vec![
            detection_sized(100, 100, 30, 40),
            detection_sized(115, 100, 25, 40),
        ],
        f(0.0),
    );
    assert_eq!(tracker.tracks.len(), 1, "a split blob must not duplicate the track");
}

#[test]
fn a_split_at_birth_yields_one_track() {
    let mut tracker = Tracker::new();
    // Two heavily overlapping blobs the very first frame (a split object).
    tracker.update(
        vec![
            detection_sized(100, 100, 30, 30),
            detection_sized(110, 100, 30, 30),
        ],
        f(0.0),
    );
    assert_eq!(tracker.tracks.len(), 1, "two overlapping birth blobs = one object");
}

#[test]
fn adjacent_distinct_parts_stay_separate() {
    let mut tracker = Tracker::new();
    // Two small parts side by side, not overlapping: legitimately distinct.
    tracker.update(
        vec![
            detection_sized(100, 100, 20, 20),
            detection_sized(140, 100, 20, 20),
        ],
        f(0.0),
    );
    assert_eq!(tracker.tracks.len(), 2, "distinct adjacent parts must stay separate");
}

#[test]
fn a_moderate_size_change_still_matches_the_same_track() {
    let mut tracker = Tracker::new();
    tracker.update(vec![detection_sized(100, 100, 20, 20)], f(0.0)); // 400 px²
    // Grows to 30x30 = 900 px² (ratio 2.25 < 3): still the same object.
    tracker.update(vec![detection_sized(100, 100, 30, 30)], f(0.0));
    assert_eq!(tracker.tracks.len(), 1, "moderate growth keeps one track");
    assert_eq!(tracker.tracks[0].id, 1);
}

#[test]
fn moving_object_keeps_its_id_and_is_reported_once() {
    let mut tracker = Tracker::new();
    // Belt moves the object 30 px per frame along +y; the tracker
    // predicts that, so matching survives the motion.
    for frame in 0..10 {
        tracker.update(vec![detection_at(100, 100 + 30 * frame)], f(30.0));
        let ready = tracker.take_ready(3);
        if frame == 2 {
            assert_eq!(ready.len(), 1, "ready on 3rd sighting");
            assert_eq!(ready[0].id, 1, "id stable across frames");
        } else {
            assert!(ready.is_empty(), "frame {frame}: no duplicate emission");
        }
    }
}

#[test]
fn flickering_object_is_still_reported_once() {
    let mut tracker = Tracker::new();
    tracker.update(vec![detection_at(100, 100)], f(0.0));
    tracker.update(vec![detection_at(100, 105)], f(0.0));
    assert!(tracker.take_ready(3).is_empty());
    // Missed for 2 frames (within max_missed_frames = 5)...
    tracker.update(vec![], f(0.0));
    tracker.update(vec![], f(0.0));
    // ...then reappears near the predicted position: same track.
    tracker.update(vec![detection_at(102, 108)], f(0.0));
    let ready = tracker.take_ready(3);
    assert_eq!(ready.len(), 1);
    assert_eq!(ready[0].id, 1);
    tracker.update(vec![detection_at(102, 110)], f(0.0));
    assert!(tracker.take_ready(3).is_empty(), "already reported");
}

#[test]
fn reappearance_after_long_occlusion_is_tracked_but_not_re_picked() {
    // An object picked (reported) then occluded long enough to be evicted
    // must NOT be picked again when it reappears.
    let mut tracker = Tracker::new();
    for _ in 0..3 {
        tracker.update(vec![detection_at(100, 100)], f(0.0));
    }
    assert_eq!(tracker.take_ready(3).len(), 1, "first Pick");
    // Gone for more than max_missed_frames (5): evicted → becomes a ghost.
    for _ in 0..6 {
        tracker.update(vec![], f(0.0));
    }
    assert!(tracker.tracks.is_empty(), "track evicted after 6 misses");
    // Reappears at the same place (belt stopped): a fresh track (new id),
    // but pre-marked reported, so no duplicate Pick.
    for _ in 0..3 {
        tracker.update(vec![detection_at(100, 100)], f(0.0));
    }
    assert!(
        tracker.take_ready(3).is_empty(),
        "the reappearing object must not be picked a second time"
    );
    assert_eq!(tracker.tracks.len(), 1, "it is still tracked (id 2)");
    assert_eq!(tracker.tracks[0].id, 2);
}

#[test]
fn a_genuinely_new_object_after_the_ghost_expires_is_picked() {
    let mut tracker = Tracker::new();
    for _ in 0..3 {
        tracker.update(vec![detection_at(100, 100)], f(0.0));
    }
    assert_eq!(tracker.take_ready(3).len(), 1);
    for _ in 0..6 {
        tracker.update(vec![], f(0.0)); // evicted → ghost
    }
    // Wait out the ghost window (ghost_frames = 30).
    for _ in 0..31 {
        tracker.update(vec![], f(0.0));
    }
    // A new object at the same spot is now a genuine new Pick.
    for _ in 0..3 {
        tracker.update(vec![detection_at(100, 100)], f(0.0));
    }
    assert_eq!(
        tracker.take_ready(3).len(),
        1,
        "after the ghost expires a new object is picked"
    );
}

#[test]
fn missed_track_prediction_accumulates_belt_shift() {
    let mut tracker = Tracker::new();
    // Belt moves 30 px/frame. Object seen once at y=100, then occluded
    // for 4 frames (belt carries it to y≈250 — far beyond the 60 px
    // match radius of its ORIGINAL position), then reappears there.
    tracker.update(vec![detection_at(100, 100)], f(30.0));
    for _ in 0..4 {
        tracker.update(vec![], f(30.0));
    }
    tracker.update(vec![detection_at(100, 250)], f(30.0));
    assert_eq!(
        tracker.tracks.len(),
        1,
        "reappearing object must rejoin its belt-drifted track, not spawn a new one"
    );
    assert_eq!(tracker.tracks[0].id, 1);
}

#[test]
fn ready_tracks_are_classified_once_and_cached() {
    let mut tracker = Tracker::new();
    let calls = Cell::new(0);
    let brick = |_: &Rect| {
        calls.set(calls.get() + 1);
        Some("brick".to_string())
    };
    // Below min_seen: not classified yet.
    tracker.update(vec![detection_at(100, 100)], f(0.0));
    tracker.update(vec![detection_at(100, 100)], f(0.0));
    tracker.classify_ready_tracks(3, &brick);
    assert_eq!(calls.get(), 0, "not classified before reaching min_seen");
    // Third sighting → ready → classified exactly once.
    tracker.update(vec![detection_at(100, 100)], f(0.0));
    tracker.classify_ready_tracks(3, &brick);
    assert_eq!(calls.get(), 1);
    assert_eq!(tracker.current_overlays()[0].1.as_deref(), Some("brick"));
    // A later frame must NOT re-embed (cached).
    tracker.update(vec![detection_at(100, 100)], f(0.0));
    tracker.classify_ready_tracks(3, &brick);
    assert_eq!(calls.get(), 1, "an object is classified at most once");
}

#[test]
fn current_overlays_shows_only_tracks_visible_this_frame() {
    let mut tracker = Tracker::new();
    // Two objects seen this frame → both overlaid.
    tracker.update(vec![detection_at(100, 100), detection_at(300, 300)], f(0.0));
    assert_eq!(tracker.current_overlays().len(), 2);
    // Next frame only one is detected: the missed one must NOT be drawn
    // (no box over empty belt), so exactly one overlay remains.
    tracker.update(vec![detection_at(100, 100)], f(0.0));
    let overlays = tracker.current_overlays();
    assert_eq!(overlays.len(), 1);
    assert_eq!(overlays[0].0, Rect::new(100, 100, 20, 20));
}

#[test]
fn far_detection_is_a_separate_track() {
    let mut tracker = Tracker::new();
    tracker.update(vec![detection_at(100, 100)], f(0.0));
    // 200 px away: beyond max_match_dist_px (60), must not steal the id.
    tracker.update(vec![detection_at(300, 100)], f(0.0));
    assert_eq!(tracker.tracks.len(), 2);
    assert_ne!(tracker.tracks[0].id, tracker.tracks[1].id);
}

#[test]
fn a_recognised_object_keeps_its_class_while_it_is_followed() {
    let mut tracker = Tracker::new();
    for _ in 0..3 {
        tracker.update(vec![detection_at(100, 100)], f(0.0));
    }
    tracker.classify_ready_tracks(3, |_| Some("brick".to_string()));
    for _ in 0..3 {
        tracker.update(vec![detection_at(101, 100)], f(0.0));
        assert_eq!(tracker.current_overlays()[0].1.as_deref(), Some("brick"));
    }
}

#[test]
fn the_nearest_pair_is_matched_first() {
    let mut tracker = Tracker::new();
    tracker.update(vec![detection_at(100, 100), detection_at(160, 100)], f(0.0));
    // Both detections are within reach of both tracks.
    tracker.update(vec![detection_at(150, 100), detection_at(120, 100)], f(0.0));
    assert_eq!(tracker.tracks.len(), 2);
    assert_eq!(tracker.tracks[0].last_rect.x, 120);
    assert_eq!(tracker.tracks[1].last_rect.x, 150);
}

#[test]
fn equally_near_pairs_go_to_the_earlier_track_and_detection() {
    let mut tracker = Tracker::new();
    tracker.update(vec![detection_at(100, 100), detection_at(180, 100)], f(0.0));
    // One detection half-way between two tracks.
    tracker.update(vec![detection_at(140, 100)], f(0.0));
    assert_eq!(tracker.tracks[0].last_rect.x, 140);
    assert_eq!(tracker.tracks[0].missed_frames, 0);
    assert_eq!(tracker.tracks[1].missed_frames, 1);

    let mut tracker = Tracker::new();
    tracker.update(vec![detection_at(100, 100)], f(0.0));
    // Two detections, one to each side.
    tracker.update(vec![detection_at(130, 100), detection_at(70, 100)], f(0.0));
    assert_eq!(tracker.tracks[0].last_rect.x, 130);
    assert_eq!(tracker.tracks[1].last_rect.x, 70);
    assert_eq!(tracker.tracks[1].id, 2);
}

#[test]
fn the_match_radius_is_inclusive() {
    let mut tracker = Tracker::new();
    tracker.update(vec![detection_at(100, 100)], f(0.0));
    tracker.update(vec![detection_at(160, 100)], f(0.0));
    assert_eq!(tracker.tracks.len(), 1, "60 px away is still the same object");
    tracker.update(vec![detection_at(221, 100)], f(0.0));
    assert_eq!(tracker.tracks.len(), 2, "61 px away is not");
}

#[test]
fn ghosts_drift_with_the_belt() {
    let mut tracker = Tracker::new();
    for n in 0..3 {
        tracker.update(vec![detection_at(100, 100 + 10 * n)], f(10.0));
    }
    assert_eq!(tracker.take_ready(3).len(), 1);
    for _ in 0..10 {
        tracker.update(vec![], f(10.0));
    }
    assert!(tracker.tracks.is_empty());
    // Where the belt has carried it by now.
    for n in 0..3 {
        tracker.update(vec![detection_at(100, 230 + 10 * n)], f(10.0));
    }
    assert!(tracker.take_ready(3).is_empty());
    assert!(tracker.ghosts.is_empty(), "the ghost is used up");
    assert!(tracker.tracks[0].reported);
}

#[test]
fn an_unreported_object_leaves_no_ghost() {
    let mut tracker = Tracker::new();
    tracker.update(vec![detection_at(100, 100)], f(0.0));
    for _ in 0..6 {
        tracker.update(vec![], f(0.0));
    }
    assert!(tracker.tracks.is_empty() && tracker.ghosts.is_empty());
    assert_eq!(tracker.next_id, 2);
}

#[test]
fn no_object_is_handed_out_twice_whatever_the_frames() {
    let mut tracker = Tracker::new();
    let mut handed: Vec<u64> = Vec::new();
    let mut state = 0x1357_9bdf_0246_8aceu64;
    for _ in 0..2000 {
        let mut detections = Vec::new();
        for _ in 0..(state % 4) {
            state = state.wrapping_mul(6364136223846793005).wrapping_add(1442695040888963407);
            detections.push(detection_sized(
                (state >> 33) as i32 % 300,
                (state >> 40) as i32 % 300,
                20 + (state >> 50) as i32 % 20,
                20,
            ));
        }
        state = state.wrapping_mul(6364136223846793005).wrapping_add(1442695040888963407);
        tracker.update(detections, f((state >> 60) as f32));
        let classified_before: Vec<u64> =
            tracker.tracks.iter().filter(|t| t.classified).map(|t| t.id).collect();
        tracker.classify_ready_tracks(3, |r| (r.width > 30).then(|| "wide".to_string()));
        for t in &tracker.tracks {
            if classified_before.contains(&t.id) {
                assert!(t.classified);
            }
        }
        for obj in tracker.take_ready(3) {
            assert!(!handed.contains(&obj.id), "object {} again", obj.id);
            handed.push(obj.id);
        }
        let ids: Vec<u64> = tracker.tracks.iter().map(|t| t.id).collect();
        assert!(ids.windows(2).all(|w| w[0] < w[1]));
    }
    assert!(handed.len() > 10, "only {} objects", handed.len());
}

#[test]
fn rectangle_geometry() {
    assert_eq!(rect_center(&Rect::new(10, 20, 5, 8)), (f(12.5), f(24.0)));
    assert_eq!(rect_area(&Rect::new(0, 0, 5, 8)), f(40.0));
    assert_eq!(rect_area(&Rect::new(0, 0, -5, 8)), f(0.0));
    let a = Rect::new(0, 0, 10, 10);
    assert_eq!(rect_intersection_area(&a, &Rect::new(5, 6, 10, 10)), f(20.0));
    assert_eq!(rect_intersection_area(&a, &Rect::new(10, 0, 10, 10)), f(0.0));
    assert_eq!(rect_intersection_area(&a, &Rect::new(-50, -50, 10, 10)), f(0.0));
    assert_eq!(overlap_coeff(&a, &Rect::new(5, 0, 5, 10)), f(1.0));
    assert_eq!(overlap_coeff(&a, &Rect::new(5, 0, 10, 10)), f(0.5));
    assert_eq!(overlap_coeff(&a, &Rect::new(0, 0, 0, 10)), f(0.0));
    assert_eq!(
        overlap_coeff(&Rect::new(0, 0, 3, 1), &Rect::new(1, 0, 100, 1)),
        f(2.0 / 3.0)
    );
}

#[test]
fn area_ratios() {
    assert!(areas_compatible(f(400.0), f(1200.0), f(3.0)));
    assert!(areas_compatible(f(1200.0), f(400.0), f(3.0)));
    assert!(!areas_compatible(f(400.0), f(1201.0), f(3.0)));
    assert!(!areas_compatible(f(0.0), f(0.0), f(3.0)));
    assert!(!areas_compatible(f(0.0), f(5.0), f(3.0)));
    assert!(!areas_compatible(f(f32::NAN), f(5.0), f(3.0)));
}

#[test]
fn a_part_at_rest_keeps_its_track_whatever_comes_and_goes() {
    let mut tracker = Tracker::new();
    tracker.update(vec![detection_at(300, 200)], f(0.0));
    let mut picks = Vec::new();
    for n in 0..60 {
        // Others appear near it, at either side of it in the frame, and leave.
        let mut frame = vec![detection_at(300, 200)];
        if n % 3 == 0 {
            frame.insert(0, detection_at(330, 200));
        }
        if n % 7 < 3 {
            frame.insert(0, detection_at(300 + n, 170));
            frame.push(detection_at(280, 230 - n));
        }
        tracker.update(frame, f(0.0));
        let here: Vec<_> = tracker
            .tracks
            .iter()
            .filter(|t| t.missed_frames == 0 && t.last_rect == Rect::new(300, 200, 20, 20))
            .map(|t| t.id)
            .collect();
        assert_eq!(here, [1], "frame {n}");
        picks.extend(tracker.take_ready(3));
    }
    let own: Vec<_> = picks.iter().filter(|o| o.rect == Rect::new(300, 200, 20, 20)).collect();
    assert_eq!(own.len(), 1);
    assert_eq!(own[0].id, 1);
    assert!(tracker.tracks.iter().all(|t| t.frames_seen >= 1 && t.missed_frames <= 5));
}

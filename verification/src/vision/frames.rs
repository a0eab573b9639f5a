//! What one frame does to the tracks: who takes which detection, who drifts,
//! who is given up, and what is new.
use super::stillness::lemma_births_keep;
use super::tracker::{
    area_of, center_of, cost, distance, drifted, first_ghost, followed, fragment_of, given_up,
    haunted_by, is_first_ghost, is_fragment, is_matched, overlap, overlays, ready_at,
    similar_areas, swap_removed, visible, Departed, Scene, TrackedObject, TrackerState, Tuning,
};
use super::{ClassName, DetectedObject};
use crate::float::Float32;
use vstd::prelude::*;

verus! {

// --- Who takes which detection ---

/// The matching of a frame gives a track only a detection that it may take,
/// gives no detection twice, and leaves no pair unmatched that could still be
/// matched.
pub proof fn law_matching_is_sound_and_full(scene: Scene, t: int, d: int)
    ensures
        ({
            let m = scene.matching();
            &&& m.len() == scene.tracks.len()
            &&& 0 <= t < m.len() && m[t] == Some(d) ==> scene.may_pair(t, d) && forall|u: int|
                #![trigger m[u]]
                0 <= u < m.len() && u != t ==> m[u] != Some(d)
            &&& scene.may_pair(t, d) ==> m[t] is Some || is_matched(m, d)
        }),
{
    let m = scene.matching();
    scene.law_a_matching_exists();
    if scene.may_pair(t, d) && m[t] is None {
        assert(scene.loses(m, t, d));
        let u = choose|u: int| #![trigger m[u]]
            0 <= u < m.len() && m[u] == Some(d) && scene.before(u, d, t, d);
        assert(m[u] == Some(d));
    }
    if 0 <= t < m.len() && m[t] == Some(d) {
        assert forall|u: int| #![trigger m[u]] 0 <= u < m.len() && u != t implies m[u] != Some(
            d,
        ) by {
            if u < t {
                assert(m[u] is Some ==> m[u] != m[t]);
            } else {
                assert(m[t] != m[u]);
            }
        }
    }
}

/// The nearest goes first: a track takes a detection that is nearer to it than
/// any other it may take, where no other track that may take it is as near.
pub proof fn law_nearest_is_taken(scene: Scene, t: int, d: int)
    requires
        scene.may_pair(t, d),
        forall|d2: int| #[trigger]
            scene.may_pair(t, d2) && d2 != d ==> cost(
                scene.tracks[t],
                scene.detections[d],
                scene.shift,
            ).below(cost(scene.tracks[t], scene.detections[d2], scene.shift)),
        forall|t2: int| #[trigger]
            scene.may_pair(t2, d) && t2 != t ==> cost(
                scene.tracks[t],
                scene.detections[d],
                scene.shift,
            ).below(cost(scene.tracks[t2], scene.detections[d], scene.shift)),
    ensures
        scene.matching()[t] == Some(d),
{
    let m = scene.matching();
    scene.law_a_matching_exists();
    if m[t] != Some(d) {
        assert(scene.loses(m, t, d));
        if m[t] is Some && scene.before(t, m[t]->0, t, d) {
            assert(scene.may_pair(t, m[t]->0));
        } else {
            let u = choose|u: int| #![trigger m[u]]
                0 <= u < m.len() && m[u] == Some(d) && scene.before(u, d, t, d);
            assert(scene.may_pair(u, d));
        }
    }
}

/// No pair is passed over: where a track may take a detection and does not, it
/// took one that is no farther, or the detection went to a track that is no
/// farther.
pub proof fn law_no_pair_is_passed_over(scene: Scene, t: int, d: int)
    requires
        scene.may_pair(t, d),
        scene.matching()[t] != Some(d),
    ensures
        ({
            let m = scene.matching();
            let near = cost(scene.tracks[t], scene.detections[d], scene.shift);
            ||| m[t] is Some && !near.below(
                cost(scene.tracks[t], scene.detections[m[t]->0], scene.shift),
            )
            ||| exists|u: int| #![trigger m[u]]
                0 <= u < m.len() && u != t && m[u] == Some(d) && !near.below(
                    cost(scene.tracks[u], scene.detections[d], scene.shift),
                )
        }),
{
    let m = scene.matching();
    let near = cost(scene.tracks[t], scene.detections[d], scene.shift);
    scene.law_a_matching_exists();
    assert(scene.loses(m, t, d));
    if !(m[t] is Some && scene.before(t, m[t]->0, t, d)) {
        let u = choose|u: int| #![trigger m[u]]
            0 <= u < m.len() && m[u] == Some(d) && scene.before(u, d, t, d);
        assert(m[u] == Some(d));
    }
}

/// Between pairs that are equally near the earlier track goes first, and for
/// one track the earlier detection.
pub proof fn law_earlier_goes_first_where_equally_near(scene: Scene, t: int, d: int)
    requires
        scene.may_pair(t, d),
        forall|d2: int| #[trigger]
            scene.may_pair(t, d2) && d2 != d ==> {
                let near = cost(scene.tracks[t], scene.detections[d], scene.shift);
                let other = cost(scene.tracks[t], scene.detections[d2], scene.shift);
                near.below(other) || (near == other && d < d2)
            },
        forall|t2: int| #[trigger]
            scene.may_pair(t2, d) && t2 != t ==> {
                let near = cost(scene.tracks[t], scene.detections[d], scene.shift);
                let other = cost(scene.tracks[t2], scene.detections[d], scene.shift);
                near.below(other) || (near == other && t < t2)
            },
    ensures
        scene.matching()[t] == Some(d),
{
    let m = scene.matching();
    scene.law_a_matching_exists();
    if m[t] != Some(d) {
        assert(scene.loses(m, t, d));
        if m[t] is Some && scene.before(t, m[t]->0, t, d) {
            assert(scene.may_pair(t, m[t]->0));
        } else {
            let u = choose|u: int| #![trigger m[u]]
                0 <= u < m.len() && m[u] == Some(d) && scene.before(u, d, t, d);
            assert(scene.may_pair(u, d));
        }
    }
}

// --- Tracks ---

/// A track that took a detection is where its object is: it has its box, its
/// centre and its capture times, has been seen once more and is not missed,
/// and keeps its id, whether it was handed out, and the class it was
/// recognised as.
pub proof fn law_seen_track_follows_its_object(
    s: TrackerState,
    tuning: Tuning,
    detections: Seq<DetectedObject>,
    shift: Float32,
    t: int,
    d: int,
)
    requires
        0 <= t < s.tracks.len(),
        s.scene(tuning, detections, shift).matching()[t] == Some(d),
    ensures
        exists|u: TrackedObject| #[trigger]
            s.after_frame(tuning, detections, shift).tracks.contains(u) && {
                &&& u.id == s.tracks[t].id
                &&& u.reported == s.tracks[t].reported
                &&& u.classified == s.tracks[t].classified
                &&& u.last_rect == detections[d].rect
                &&& u.center == center_of(detections[d].rect)
                &&& u.missed_frames == 0
                &&& s.tracks[t].frames_seen < u32::MAX ==> u.frames_seen == s.tracks[t].frames_seen
                    + 1
                &&& s.tracks[t].frames_seen == u32::MAX ==> u.frames_seen == u32::MAX
                &&& u.detected.id == s.tracks[t].id
                &&& u.detected.rect == detections[d].rect
                &&& u.detected.seen_at == detections[d].seen_at
                &&& u.detected.timestamp == detections[d].timestamp
                &&& u.detected.world_pos == detections[d].world_pos
                &&& u.detected.confidence == detections[d].confidence
                &&& u.detected.class == if s.tracks[t].classified {
                    s.tracks[t].detected.class
                } else {
                    detections[d].class
                }
            },
{
    let m = s.scene(tuning, detections, shift).matching();
    let moved = s.scene(tuning, detections, shift).moved(m);
    let settled = s.settled(tuning, detections, shift, m);
    let u = moved[t];
    moved.lemma_filter_contains(followed(tuning), t);
    lemma_births_keep(settled, tuning, detections, m, detections.len() as int, u);
    assert(s.after_frame(tuning, detections, shift).tracks.contains(u));
}

/// A track that took none, and has not been missed for too long, is carried
/// along by the belt, missed once more, and else as it was.
pub proof fn law_missed_track_drifts(
    s: TrackerState,
    tuning: Tuning,
    detections: Seq<DetectedObject>,
    shift: Float32,
    t: int,
)
    requires
        0 <= t < s.tracks.len(),
        s.scene(tuning, detections, shift).matching()[t] is None,
        s.tracks[t].missed_frames < tuning.max_missed_frames,
    ensures
        s.after_frame(tuning, detections, shift).tracks.contains(
            TrackedObject {
                center: (s.tracks[t].center.0, s.tracks[t].center.1.sum(shift)),
                missed_frames: (s.tracks[t].missed_frames + 1) as u32,
                ..s.tracks[t]
            },
        ),
{
    let m = s.scene(tuning, detections, shift).matching();
    let moved = s.scene(tuning, detections, shift).moved(m);
    let settled = s.settled(tuning, detections, shift, m);
    moved.lemma_filter_contains(followed(tuning), t);
    lemma_births_keep(settled, tuning, detections, m, detections.len() as int, moved[t]);
}

/// A track that has been missed for too long is given up: no track has its id
/// any more.
pub proof fn law_lost_track_is_given_up(
    s: TrackerState,
    tuning: Tuning,
    detections: Seq<DetectedObject>,
    shift: Float32,
    t: int,
)
    requires
        s.valid(tuning),
        s.next_id + detections.len() <= u64::MAX,
        tuning.max_missed_frames < u32::MAX,
        0 <= t < s.tracks.len(),
        s.scene(tuning, detections, shift).matching()[t] is None,
        s.tracks[t].missed_frames == tuning.max_missed_frames,
    ensures
        ({
            let next = s.after_frame(tuning, detections, shift);
            forall|i: int| #![trigger next.tracks[i]]
                0 <= i < next.tracks.len() ==> next.tracks[i].id != s.tracks[t].id
        }),
{
    let m = s.scene(tuning, detections, shift).matching();
    let moved = s.scene(tuning, detections, shift).moved(m);
    let settled = s.settled(tuning, detections, shift, m);
    let next = s.after_frame(tuning, detections, shift);
    assert forall|i: int| #![trigger next.tracks[i]] 0 <= i < next.tracks.len() implies
        next.tracks[i].id != s.tracks[t].id by {
        lemma_origin(settled, tuning, detections, m, detections.len() as int, i);
        let u = next.tracks[i];
        if settled.tracks.contains(u) {
            moved.lemma_filter_contains_rev(followed(tuning), u);
            let k = choose|k: int| 0 <= k < moved.len() && moved[k] == u;
            let at = choose|at: int| 0 <= at < settled.tracks.len() && settled.tracks[at] == u;
            moved.lemma_filter_pred(followed(tuning), at);
            assert(moved[k].id == s.tracks[k].id);
            if k < t {
                assert(s.tracks[k].id < s.tracks[t].id);
            } else if t < k {
                assert(s.tracks[t].id < s.tracks[k].id);
            }
        } else {
            assert(s.tracks[t].id < s.next_id);
        }
    }
}

/// Every ghost after a frame was one before, one frame nearer to its end and
/// carried along by the belt, or is that of a track given up just now, whose
/// object had been handed out.
pub proof fn law_ghosts_are_of_what_was_picked(
    s: TrackerState,
    tuning: Tuning,
    detections: Seq<DetectedObject>,
    shift: Float32,
    m: Seq<Option<int>>,
    i: int,
)
    requires
        0 <= i < s.settled(tuning, detections, shift, m).ghosts.len(),
        s.valid(tuning),
        tuning.max_missed_frames < u32::MAX,
    ensures
        ({
            let g = s.settled(tuning, detections, shift, m).ghosts[i];
            ||| exists|k: int| #![trigger s.ghosts[k]]
                {
                    &&& 0 <= k < s.ghosts.len()
                    &&& s.ghosts[k].ttl > 1
                    &&& g.ttl == s.ghosts[k].ttl - 1
                    &&& g.area == s.ghosts[k].area
                    &&& g.center == (s.ghosts[k].center.0, s.ghosts[k].center.1.sum(shift))
                }
            ||| exists|t: int| #![trigger s.tracks[t]]
                {
                    &&& 0 <= t < s.tracks.len()
                    &&& s.tracks[t].reported
                    &&& s.tracks[t].missed_frames == tuning.max_missed_frames
                    &&& m[t] is None
                    &&& g.ttl == tuning.ghost_frames
                    &&& g.area == area_of(s.tracks[t].last_rect)
                    &&& g.center == (s.tracks[t].center.0, s.tracks[t].center.1.sum(shift))
                }
        }),
{
    let settled = s.settled(tuning, detections, shift, m);
    let moved = s.scene(tuning, detections, shift).moved(m);
    let old = drifted(s.ghosts, shift);
    let g = settled.ghosts[i];
    if i < old.len() {
        let all = s.ghosts.map_values(|g: Departed| super::tracker::carried(g, shift));
        let alive = |g: Departed| g.ttl > 0;
        assert(old == all.filter(alive));
        all.lemma_filter_contains_rev(alive, old[i]);
        all.lemma_filter_pred(alive, i);
        let k = choose|k: int| 0 <= k < all.len() && all[k] == old[i];
        assert(g == all[k]);
        assert(s.ghosts[k].ttl > 1);
    } else {
        let gone = moved.filter(given_up(tuning));
        let u = gone[i - old.len()];
        moved.lemma_filter_contains_rev(given_up(tuning), u);
        moved.lemma_filter_pred(given_up(tuning), i - old.len());
        let t = choose|t: int| 0 <= t < moved.len() && moved[t] == u;
        assert(s.tracks[t].missed_frames <= tuning.max_missed_frames);
        assert(s.tracks[t].reported);
    }
}

// --- What is new ---

/// A track after the births was there before them, or is a new one: that of an
/// unmatched detection, seen once, under an id that had not been given out.
proof fn lemma_origin(
    s: TrackerState,
    tuning: Tuning,
    detections: Seq<DetectedObject>,
    m: Seq<Option<int>>,
    n: int,
    i: int,
)
    requires
        0 <= n <= detections.len(),
        0 <= s.next_id,
        s.next_id + n <= u64::MAX,
        0 <= i < s.births(tuning, detections, m, n).tracks.len(),
    ensures
        s.next_id <= s.births(tuning, detections, m, n).next_id <= s.next_id + n,
        ({
            let u = s.births(tuning, detections, m, n).tracks[i];
            ||| s.tracks.contains(u)
            ||| {
                &&& u.id >= s.next_id
                &&& u.frames_seen == 1
                &&& u.missed_frames == 0
                &&& !u.classified
                &&& exists|d: int| #![trigger detections[d]]
                    0 <= d < n && !is_matched(m, d) && u.last_rect == detections[d].rect
                        && u.detected.seen_at == detections[d].seen_at
            }
        }),
    decreases n,
{
    let after = s.births(tuning, detections, m, n);
    if n > 0 {
        let before = s.births(tuning, detections, m, n - 1);
        lemma_births_count(s, tuning, detections, m, n - 1);
        if i < before.tracks.len() {
            lemma_origin(s, tuning, detections, m, n - 1, i);
            assert(after.tracks[i] == before.tracks[i]);
        } else {
            let u = after.tracks[i];
            assert(!is_matched(m, n - 1));
            assert(u.last_rect == detections[n - 1].rect);
        }
    } else {
        assert(s.tracks.contains(s.tracks[i]));
    }
}

proof fn lemma_births_count(
    s: TrackerState,
    tuning: Tuning,
    detections: Seq<DetectedObject>,
    m: Seq<Option<int>>,
    n: int,
)
    requires
        0 <= n,
    ensures
        s.next_id <= s.births(tuning, detections, m, n).next_id <= s.next_id + n,
        s.births(tuning, detections, m, n).tracks.len() - s.tracks.len() == s.births(
            tuning,
            detections,
            m,
            n,
        ).next_id - s.next_id,
    decreases n,
{
    if n > 0 {
        lemma_births_count(s, tuning, detections, m, n - 1);
    }
}

/// An unmatched detection that overlaps no track in view and lies farther from
/// every ghost than a match may, is a new object: it gets the next id, has
/// been seen once, and has not been handed out. Nothing else changes.
pub proof fn law_far_object_is_new(s: TrackerState, tuning: Tuning, d: DetectedObject)
    requires
        0 <= s.next_id <= u64::MAX,
        forall|i: int| #![trigger s.tracks[i]]
            0 <= i < s.tracks.len() && s.tracks[i].missed_frames == 0
                ==> !tuning.min_birth_overlap.at_most(overlap(d.rect, s.tracks[i].last_rect)),
        forall|i: int| #![trigger s.ghosts[i]]
            0 <= i < s.ghosts.len() ==> !distance(center_of(d.rect), s.ghosts[i].center).at_most(
                tuning.max_match_dist_px,
            ),
    ensures
        ({
            let b = s.born(tuning, d);
            let u = b.tracks.last();
            &&& b.next_id == s.next_id + 1
            &&& b.ghosts == s.ghosts
            &&& b.tracks.len() == s.tracks.len() + 1
            &&& b.tracks.drop_last() == s.tracks
            &&& u.id == s.next_id
            &&& !u.reported
            &&& !u.classified
            &&& u.frames_seen == 1
            &&& u.missed_frames == 0
            &&& u.last_rect == d.rect
            &&& u.center == center_of(d.rect)
            &&& u.detected == (DetectedObject { id: s.next_id as u64, ..d })
        }),
{
    let b = s.born(tuning, d);
    assert forall|i: int| #![trigger s.tracks[i]] 0 <= i < s.tracks.len() implies !fragment_of(
        tuning,
        s.tracks[i],
        d.rect,
    ) by {
        reveal(fragment_of);
    }
    assert(!is_fragment(tuning, s.tracks, d.rect));
    assert forall|i: int| !is_first_ghost(tuning, s.ghosts, d.rect, i) by {
        if is_first_ghost(tuning, s.ghosts, d.rect, i) {
            reveal(haunted_by);
            assert(distance(center_of(d.rect), s.ghosts[i].center).at_most(
                tuning.max_match_dist_px,
            ));
        }
    }
    assert(first_ghost(tuning, s.ghosts, d.rect) is None);
    assert(b.tracks.drop_last() =~= s.tracks);
}

/// A new track counts as handed out only where a ghost of like size lies
/// within reach of it. The first such ghost is used up; the others stay.
pub proof fn law_only_a_ghost_within_reach_silences(
    s: TrackerState,
    tuning: Tuning,
    d: DetectedObject,
)
    requires
        0 <= s.next_id <= u64::MAX,
        s.born(tuning, d).tracks.len() > s.tracks.len(),
        s.born(tuning, d).tracks.last().reported,
    ensures
        exists|i: int| #![trigger s.ghosts[i]]
            {
                let b = s.born(tuning, d);
                &&& 0 <= i < s.ghosts.len()
                &&& distance(center_of(d.rect), s.ghosts[i].center).at_most(
                    tuning.max_match_dist_px,
                )
                &&& similar_areas(s.ghosts[i].area, area_of(d.rect), tuning.max_area_ratio)
                &&& b.ghosts.len() == s.ghosts.len() - 1
                &&& forall|j: int| #![trigger s.ghosts[j]]
                    0 <= j < i ==> !distance(center_of(d.rect), s.ghosts[j].center).at_most(
                        tuning.max_match_dist_px,
                    ) || !similar_areas(s.ghosts[j].area, area_of(d.rect), tuning.max_area_ratio)
                &&& forall|j: int| #![trigger s.ghosts[j]]
                    0 <= j < s.ghosts.len() && j != i ==> b.ghosts.contains(s.ghosts[j])
            },
{
    let b = s.born(tuning, d);
    let g = first_ghost(tuning, s.ghosts, d.rect);
    assert(g is Some);
    let i = g->0;
    assert(is_first_ghost(tuning, s.ghosts, d.rect, i));
    reveal(haunted_by);
    assert(b.ghosts == swap_removed(s.ghosts, i));
    assert forall|j: int| #![trigger s.ghosts[j]] 0 <= j < i implies !distance(
        center_of(d.rect),
        s.ghosts[j].center,
    ).at_most(tuning.max_match_dist_px) || !similar_areas(
        s.ghosts[j].area,
        area_of(d.rect),
        tuning.max_area_ratio,
    ) by {
        assert(!haunted_by(tuning, s.ghosts[j], d.rect));
    }
    assert forall|j: int| #![trigger s.ghosts[j]]
        0 <= j < s.ghosts.len() && j != i implies b.ghosts.contains(s.ghosts[j]) by {
        if j == s.ghosts.len() - 1 {
            assert(b.ghosts[i] == s.ghosts[j]);
        } else {
            assert(b.ghosts[j] == s.ghosts[j]);
        }
    }
    assert(distance(center_of(d.rect), s.ghosts[i].center).at_most(tuning.max_match_dist_px));
}

/// No detection is lost: after the frame some track in view has its box, or
/// overlaps it so far that it is a fragment of that.
pub proof fn law_every_detection_is_followed(
    s: TrackerState,
    tuning: Tuning,
    detections: Seq<DetectedObject>,
    shift: Float32,
    d: int,
)
    requires
        0 <= d < detections.len(),
    ensures
        exists|u: TrackedObject| #[trigger]
            s.after_frame(tuning, detections, shift).tracks.contains(u) && u.missed_frames == 0
                && (u.last_rect == detections[d].rect || tuning.min_birth_overlap.at_most(
                overlap(detections[d].rect, u.last_rect),
            )),
{
    let m = s.scene(tuning, detections, shift).matching();
    let moved = s.scene(tuning, detections, shift).moved(m);
    let settled = s.settled(tuning, detections, shift, m);
    let n = detections.len() as int;
    if is_matched(m, d) {
        law_matching_is_sound_and_full(s.scene(tuning, detections, shift), 0, d);
        let t = choose|t: int| #![trigger m[t]] 0 <= t < m.len() && m[t] == Some(d);
        assert(moved[t].last_rect == detections[d].rect);
        moved.lemma_filter_contains(followed(tuning), t);
        lemma_births_keep(settled, tuning, detections, m, n, moved[t]);
        assert(s.after_frame(tuning, detections, shift).tracks.contains(moved[t]));
    } else {
        let before = settled.births(tuning, detections, m, d);
        let after = settled.births(tuning, detections, m, d + 1);
        let u = if is_fragment(tuning, before.tracks, detections[d].rect) {
            let i = choose|i: int| #![trigger before.tracks[i]]
                0 <= i < before.tracks.len() && fragment_of(
                    tuning,
                    before.tracks[i],
                    detections[d].rect,
                );
            reveal(fragment_of);
            assert(after.tracks[i] == before.tracks[i]);
            before.tracks[i]
        } else {
            assert(after.tracks[before.tracks.len() as int].last_rect == detections[d].rect);
            after.tracks[before.tracks.len() as int]
        };
        assert(after.tracks.contains(u));
        lemma_later_births_keep(settled, tuning, detections, m, d + 1, n, u);
        assert(s.after_frame(tuning, detections, shift).tracks.contains(u));
    }
}

proof fn lemma_later_births_keep(
    s: TrackerState,
    tuning: Tuning,
    detections: Seq<DetectedObject>,
    m: Seq<Option<int>>,
    k: int,
    n: int,
    u: TrackedObject,
)
    requires
        k <= n,
        s.births(tuning, detections, m, k).tracks.contains(u),
    ensures
        s.births(tuning, detections, m, n).tracks.contains(u),
    decreases n - k,
{
    if k < n && n > 0 {
        lemma_later_births_keep(s, tuning, detections, m, k, n - 1, u);
        let b = s.births(tuning, detections, m, n - 1);
        let i = choose|i: int| 0 <= i < b.tracks.len() && b.tracks[i] == u;
        assert(s.births(tuning, detections, m, n).tracks[i] == u);
    }
}

/// Nothing comes from nothing: a track under a new id is that of an unmatched
/// detection of this frame, seen for the first time.
pub proof fn law_new_tracks_are_new_objects(
    s: TrackerState,
    tuning: Tuning,
    detections: Seq<DetectedObject>,
    shift: Float32,
    i: int,
)
    requires
        s.valid(tuning),
        s.next_id + detections.len() <= u64::MAX,
        0 <= i < s.after_frame(tuning, detections, shift).tracks.len(),
        s.after_frame(tuning, detections, shift).tracks[i].id >= s.next_id,
    ensures
        ({
            let m = s.scene(tuning, detections, shift).matching();
            let u = s.after_frame(tuning, detections, shift).tracks[i];
            &&& u.frames_seen == 1
            &&& u.missed_frames == 0
            &&& !u.classified
            &&& exists|d: int| #![trigger detections[d]]
                0 <= d < detections.len() && !is_matched(m, d) && u.last_rect
                    == detections[d].rect && u.detected.seen_at == detections[d].seen_at
        }),
{
    let m = s.scene(tuning, detections, shift).matching();
    let moved = s.scene(tuning, detections, shift).moved(m);
    let settled = s.settled(tuning, detections, shift, m);
    let u = s.after_frame(tuning, detections, shift).tracks[i];
    lemma_origin(settled, tuning, detections, m, detections.len() as int, i);
    if settled.tracks.contains(u) {
        moved.lemma_filter_contains_rev(followed(tuning), u);
        let k = choose|k: int| 0 <= k < moved.len() && moved[k] == u;
        assert(s.tracks[k].id < s.next_id);
    }
}

// --- Reports, recognition and the feed ---

/// What is handed out is the object of a track that has been seen in at least
/// `min_seen` frames and had not been handed out.
pub proof fn law_handed_out_was_due(s: TrackerState, min_seen: u32, k: int)
    requires
        0 <= k < s.ready(min_seen).len(),
    ensures
        exists|i: int| #![trigger s.tracks[i]]
            0 <= i < s.tracks.len() && s.tracks[i].detected == s.ready(min_seen)[k]
                && !s.tracks[i].reported && s.tracks[i].frames_seen >= min_seen,
{
    let ready = s.tracks.filter(ready_at(min_seen));
    s.tracks.lemma_filter_contains_rev(ready_at(min_seen), ready[k]);
    s.tracks.lemma_filter_pred(ready_at(min_seen), k);
    let i = choose|i: int| 0 <= i < s.tracks.len() && s.tracks[i] == ready[k];
    assert(s.tracks[i].detected == s.ready(min_seen)[k]);
}

/// A report marks what was due as handed out, and touches nothing else.
pub proof fn law_report_only_marks(s: TrackerState, min_seen: u32, i: int)
    requires
        0 <= i < s.tracks.len(),
    ensures
        ({
            let after = s.after_report(min_seen);
            &&& after.next_id == s.next_id
            &&& after.ghosts == s.ghosts
            &&& after.tracks.len() == s.tracks.len()
            &&& after.tracks[i].reported == (s.tracks[i].reported || s.tracks[i].frames_seen
                >= min_seen)
            &&& after.tracks[i] == (TrackedObject {
                reported: after.tracks[i].reported,
                ..s.tracks[i]
            })
        }),
{
}

/// Recognition names the tracks that are in view, seen often enough and not
/// yet put to it, and touches nothing else.
pub proof fn law_recognition_only_names(
    s: TrackerState,
    min_seen: u32,
    classes: Seq<Option<ClassName>>,
    i: int,
)
    requires
        0 <= i < s.tracks.len(),
    ensures
        ({
            let after = s.after_classes(min_seen, classes);
            let t = s.tracks[i];
            let due = !t.classified && t.missed_frames == 0 && t.frames_seen >= min_seen;
            &&& after.next_id == s.next_id
            &&& after.ghosts == s.ghosts
            &&& after.tracks.len() == s.tracks.len()
            &&& !due ==> after.tracks[i] == t
            &&& due ==> after.tracks[i].classified && after.tracks[i].detected.class == classes[i]
            &&& due ==> after.tracks[i] == (TrackedObject {
                classified: true,
                detected: DetectedObject { class: classes[i], ..t.detected },
                ..t
            })
        }),
{
}

/// The feed shows a box around every track in view, with its class.
pub proof fn law_feed_shows_what_is_in_view(tracks: Seq<TrackedObject>, i: int)
    requires
        0 <= i < tracks.len(),
        tracks[i].missed_frames == 0,
    ensures
        overlays(tracks).contains((tracks[i].last_rect, tracks[i].detected.class)),
{
    let seen = tracks.filter(visible());
    tracks.lemma_filter_contains(visible(), i);
    let k = choose|k: int| 0 <= k < seen.len() && seen[k] == tracks[i];
    assert(overlays(tracks)[k] == (tracks[i].last_rect, tracks[i].detected.class));
}

/// No box is drawn around anything else.
pub proof fn law_feed_shows_nothing_else(tracks: Seq<TrackedObject>, k: int)
    requires
        0 <= k < overlays(tracks).len(),
    ensures
        exists|i: int| #![trigger tracks[i]]
            0 <= i < tracks.len() && tracks[i].missed_frames == 0 && overlays(tracks)[k].0
                == tracks[i].last_rect && overlays(tracks)[k].1 == tracks[i].detected.class,
{
    let seen = tracks.filter(visible());
    tracks.lemma_filter_contains_rev(visible(), seen[k]);
    tracks.lemma_filter_pred(visible(), k);
    let i = choose|i: int| 0 <= i < tracks.len() && tracks[i] == seen[k];
    assert(tracks[i].missed_frames == 0);
}

} // verus!

//! What holds of a tracked object over its whole lifetime, whatever frames
//! come in.
use super::tracker::{
    aged, area_of, awaits_class, carried, departed, drifted, first_ghost, followed, fragment_of,
    given_up, haunted_by, is_first_ghost, is_fragment, lemma_born_valid, lemma_settled_valid,
    predicted, ready_at, refreshed, reported_at, Departed, TrackedObject, TrackerState, Tuning,
};
use super::{ClassName, DetectedObject, Rect};
use crate::float::Float32;
use vstd::prelude::*;

verus! {

/// One call on a tracker.
pub enum Step {
    Frame { detections: Seq<DetectedObject>, shift: Float32 },
    Report { min_seen: u32 },
    Classify { min_seen: u32, classes: Seq<Option<ClassName>> },
}

impl TrackerState {
    /// The state after a call.
    pub open spec fn after(self, tuning: Tuning, step: Step) -> TrackerState {
        match step {
            Step::Frame { detections, shift } => self.after_frame(tuning, detections, shift),
            Step::Report { min_seen } => self.after_report(min_seen),
            Step::Classify { min_seen, classes } => self.after_classes(min_seen, classes),
        }
    }

    /// The state after the first `n` calls.
    pub open spec fn after_all(self, tuning: Tuning, steps: Seq<Step>, n: int) -> TrackerState
        decreases n,
    {
        if n <= 0 {
            self
        } else {
            self.after_all(tuning, steps, n - 1).after(tuning, steps[n - 1])
        }
    }

    /// Object `id` can never be handed out again.
    pub open spec fn spent(self, id: int) -> bool {
        &&& id < self.next_id
        &&& forall|i: int| #![trigger self.tracks[i]]
            0 <= i < self.tracks.len() && self.tracks[i].id == id ==> self.tracks[i].reported
    }

    /// Object `id` can never be recognised again.
    pub open spec fn settled_class(self, id: int) -> bool {
        &&& id < self.next_id
        &&& forall|i: int| #![trigger self.tracks[i]]
            0 <= i < self.tracks.len() && self.tracks[i].id == id ==> self.tracks[i].classified
    }

    /// `id` is among the objects that `take_ready` hands out.
    pub open spec fn hands_out(self, min_seen: u32, id: int) -> bool {
        exists|k: int| #![trigger self.ready(min_seen)[k]]
            0 <= k < self.ready(min_seen).len() && self.ready(min_seen)[k].id == id
    }

    /// `id` is among the objects that are put to recognition.
    pub open spec fn asks_class(self, min_seen: u32, id: int) -> bool {
        exists|k: int| #![trigger self.tracks[k]]
            0 <= k < self.tracks.len() && self.tracks[k].id == id && awaits_class(
                self.tracks[k],
                min_seen,
            )
    }

    /// Every track of `next` that is not new is a track of `self`, with the
    /// same identity and at least as far along.
    spec fn grows_into(self, next: TrackerState) -> bool {
        &&& next.next_id >= self.next_id
        &&& forall|j: int| #![trigger next.tracks[j]]
            0 <= j < next.tracks.len() && next.tracks[j].id < self.next_id ==> exists|i: int|
                #![trigger self.tracks[i]]
                {
                    &&& 0 <= i < self.tracks.len()
                    &&& self.tracks[i].id == next.tracks[j].id
                    &&& self.tracks[i].reported ==> next.tracks[j].reported
                    &&& self.tracks[i].classified ==> next.tracks[j].classified
                }
    }

    proof fn lemma_grows_on(self, middle: TrackerState, last: TrackerState)
        requires
            self.grows_into(middle),
            middle.grows_into(last),
        ensures
            self.grows_into(last),
    {
        assert forall|j: int| #![trigger last.tracks[j]]
            0 <= j < last.tracks.len() && last.tracks[j].id < self.next_id implies exists|i: int|
            #![trigger self.tracks[i]]
            {
                &&& 0 <= i < self.tracks.len()
                &&& self.tracks[i].id == last.tracks[j].id
                &&& self.tracks[i].reported ==> last.tracks[j].reported
                &&& self.tracks[i].classified ==> last.tracks[j].classified
            } by {
            let k = choose|k: int| #![trigger middle.tracks[k]]
                {
                    &&& 0 <= k < middle.tracks.len()
                    &&& middle.tracks[k].id == last.tracks[j].id
                    &&& middle.tracks[k].reported ==> last.tracks[j].reported
                    &&& middle.tracks[k].classified ==> last.tracks[j].classified
                };
            assert(middle.tracks[k].id < self.next_id);
        }
    }

    proof fn lemma_born_grows(self, tuning: Tuning, d: DetectedObject)
        requires
            0 <= self.next_id <= u64::MAX,
        ensures
            self.grows_into(self.born(tuning, d)),
    {
        let b = self.born(tuning, d);
        assert forall|j: int| #![trigger b.tracks[j]]
            0 <= j < b.tracks.len() && b.tracks[j].id < self.next_id implies exists|i: int|
            #![trigger self.tracks[i]]
            {
                &&& 0 <= i < self.tracks.len()
                &&& self.tracks[i].id == b.tracks[j].id
                &&& self.tracks[i].reported ==> b.tracks[j].reported
                &&& self.tracks[i].classified ==> b.tracks[j].classified
            } by {
            if j < self.tracks.len() {
                assert(b.tracks[j] == self.tracks[j]);
            }
        }
    }

    proof fn lemma_births_grow(
        self,
        tuning: Tuning,
        detections: Seq<DetectedObject>,
        m: Seq<Option<int>>,
        n: int,
    )
        requires
            0 <= self.next_id,
            self.next_id + n <= u64::MAX,
            0 <= n,
        ensures
            self.grows_into(self.births(tuning, detections, m, n)),
            self.births(tuning, detections, m, n).next_id <= self.next_id + n,
        decreases n,
    {
        if n > 0 {
            let s = self.births(tuning, detections, m, n - 1);
            self.lemma_births_grow(tuning, detections, m, n - 1);
            s.lemma_born_grows(tuning, detections[n - 1]);
            self.lemma_grows_on(s, s.born(tuning, detections[n - 1]));
        }
    }

    proof fn lemma_settled_grows(
        self,
        tuning: Tuning,
        detections: Seq<DetectedObject>,
        shift: Float32,
        m: Seq<Option<int>>,
    )
        ensures
            self.grows_into(self.settled(tuning, detections, shift, m)),
    {
        let next = self.settled(tuning, detections, shift, m);
        let moved = self.scene(tuning, detections, shift).moved(m);
        assert forall|j: int| #![trigger next.tracks[j]]
            0 <= j < next.tracks.len() && next.tracks[j].id < self.next_id implies exists|i: int|
            #![trigger self.tracks[i]]
            {
                &&& 0 <= i < self.tracks.len()
                &&& self.tracks[i].id == next.tracks[j].id
                &&& self.tracks[i].reported ==> next.tracks[j].reported
                &&& self.tracks[i].classified ==> next.tracks[j].classified
            } by {
            moved.lemma_filter_contains_rev(followed(tuning), next.tracks[j]);
            let k = choose|k: int| 0 <= k < moved.len() && moved[k] == next.tracks[j];
            assert(self.tracks[k].id == moved[k].id);
        }
    }

    proof fn lemma_frame_grows(
        self,
        tuning: Tuning,
        detections: Seq<DetectedObject>,
        shift: Float32,
    )
        requires
            0 <= self.next_id,
            self.next_id + detections.len() <= u64::MAX,
        ensures
            self.grows_into(self.after_frame(tuning, detections, shift)),
    {
        let m = self.scene(tuning, detections, shift).matching();
        let s = self.settled(tuning, detections, shift, m);
        self.lemma_settled_grows(tuning, detections, shift, m);
        s.lemma_births_grow(tuning, detections, m, detections.len() as int);
        self.lemma_grows_on(s, self.after_frame(tuning, detections, shift));
    }

    proof fn lemma_step_grows(self, tuning: Tuning, step: Step)
        requires
            self.valid(tuning),
            step matches Step::Frame { detections, .. } ==> self.next_id + detections.len()
                <= u64::MAX,
        ensures
            self.grows_into(self.after(tuning, step)),
    {
        match step {
            Step::Frame { detections, shift } => {
                self.lemma_frame_grows(tuning, detections, shift);
            },
            Step::Report { min_seen } => {
                let next = self.after_report(min_seen);
                assert forall|j: int| #![trigger next.tracks[j]]
                    0 <= j < next.tracks.len() && next.tracks[j].id
                        < self.next_id implies exists|i: int| #![trigger self.tracks[i]]
                    {
                        &&& 0 <= i < self.tracks.len()
                        &&& self.tracks[i].id == next.tracks[j].id
                        &&& self.tracks[i].reported ==> next.tracks[j].reported
                        &&& self.tracks[i].classified ==> next.tracks[j].classified
                    } by {
                    assert(self.tracks[j].id == next.tracks[j].id);
                }
            },
            Step::Classify { min_seen, classes } => {
                let next = self.after_classes(min_seen, classes);
                assert forall|j: int| #![trigger next.tracks[j]]
                    0 <= j < next.tracks.len() && next.tracks[j].id
                        < self.next_id implies exists|i: int| #![trigger self.tracks[i]]
                    {
                        &&& 0 <= i < self.tracks.len()
                        &&& self.tracks[i].id == next.tracks[j].id
                        &&& self.tracks[i].reported ==> next.tracks[j].reported
                        &&& self.tracks[i].classified ==> next.tracks[j].classified
                    } by {
                    assert(self.tracks[j].id == next.tracks[j].id);
                }
            },
        }
    }
}

/// The calls `steps` can be made one after the other on a tracker that starts
/// out as `start`: its ids suffice.
pub open spec fn is_run(start: TrackerState, tuning: Tuning, steps: Seq<Step>) -> bool {
    &&& start.valid(tuning)
    &&& forall|n: int| #![trigger start.after_all(tuning, steps, n)]
        0 <= n < steps.len() ==> (steps[n] matches Step::Frame { detections, .. }
            ==> start.after_all(tuning, steps, n).next_id + detections.len() <= u64::MAX)
}

proof fn lemma_births_valid(
    s: TrackerState,
    tuning: Tuning,
    detections: Seq<DetectedObject>,
    m: Seq<Option<int>>,
    n: int,
)
    requires
        s.valid(tuning),
        0 <= n,
        s.next_id + n <= u64::MAX,
    ensures
        s.births(tuning, detections, m, n).valid(tuning),
    decreases n,
{
    if n > 0 {
        lemma_births_valid(s, tuning, detections, m, n - 1);
        s.lemma_births_grow(tuning, detections, m, n - 1);
        lemma_born_valid(s.births(tuning, detections, m, n - 1), tuning, detections[n - 1]);
    }
}

/// Whatever calls were made, the ids of the tracks are distinct and rising,
/// each object carries the id of its track, and every track has been seen and
/// not been missed for too long.
pub proof fn law_reached_trackers_are_valid(start: TrackerState, tuning: Tuning, steps: Seq<Step>, n: int)
    requires
        is_run(start, tuning, steps),
        0 <= n <= steps.len(),
    ensures
        start.after_all(tuning, steps, n).valid(tuning),
    decreases n,
{
    if n > 0 {
        law_reached_trackers_are_valid(start, tuning, steps, n - 1);
        let s = start.after_all(tuning, steps, n - 1);
        let next = start.after_all(tuning, steps, n);
        match steps[n - 1] {
            Step::Frame { detections, shift } => {
                let m = s.scene(tuning, detections, shift).matching();
                lemma_settled_valid(s, tuning, detections, shift, m);
                lemma_births_valid(
                    s.settled(tuning, detections, shift, m),
                    tuning,
                    detections,
                    m,
                    detections.len() as int,
                );
            },
            Step::Report { min_seen } => {
                assert forall|i: int| #![trigger next.tracks[i]]
                    0 <= i < next.tracks.len() implies next.tracks[i] == reported_at(
                    s.tracks[i],
                    min_seen,
                ) by {}
            },
            Step::Classify { min_seen, classes } => {
                assert forall|i: int| #![trigger next.tracks[i]]
                    0 <= i < next.tracks.len() implies next.tracks[i].id == s.tracks[i].id
                    && next.tracks[i].detected.id == s.tracks[i].detected.id
                    && next.tracks[i].missed_frames == s.tracks[i].missed_frames by {}
            },
        }
    }
}

proof fn lemma_run_grows(start: TrackerState, tuning: Tuning, steps: Seq<Step>, i: int, j: int)
    requires
        is_run(start, tuning, steps),
        0 <= i <= j <= steps.len(),
    ensures
        start.after_all(tuning, steps, i).grows_into(start.after_all(tuning, steps, j)),
    decreases j - i,
{
    let a = start.after_all(tuning, steps, i);
    if i == j {
        assert forall|k: int| #![trigger a.tracks[k]]
            0 <= k < a.tracks.len() && a.tracks[k].id < a.next_id implies exists|i: int|
            #![trigger a.tracks[i]]
            {
                &&& 0 <= i < a.tracks.len()
                &&& a.tracks[i].id == a.tracks[k].id
                &&& a.tracks[i].reported ==> a.tracks[k].reported
                &&& a.tracks[i].classified ==> a.tracks[k].classified
            } by {
            assert(a.tracks[k].id == a.tracks[k].id);
        }
    } else {
        let b = start.after_all(tuning, steps, j - 1);
        lemma_run_grows(start, tuning, steps, i, j - 1);
        law_reached_trackers_are_valid(start, tuning, steps, j - 1);
        b.lemma_step_grows(tuning, steps[j - 1]);
        a.lemma_grows_on(b, b.after(tuning, steps[j - 1]));
    }
}

/// Once handed out, an object stays spent, and what is handed out was not
/// spent before.
pub proof fn law_report_spends(s: TrackerState, tuning: Tuning, min_seen: u32, id: int)
    requires
        s.valid(tuning),
    ensures
        s.hands_out(min_seen, id) ==> !s.spent(id) && s.after_report(min_seen).spent(id),
{
    if s.hands_out(min_seen, id) {
        let ready = s.tracks.filter(ready_at(min_seen));
        let k = choose|k: int| #![trigger s.ready(min_seen)[k]]
            0 <= k < s.ready(min_seen).len() && s.ready(min_seen)[k].id == id;
        s.tracks.lemma_filter_contains_rev(ready_at(min_seen), ready[k]);
        let i = choose|i: int| 0 <= i < s.tracks.len() && s.tracks[i] == ready[k];
        assert(s.tracks[i].detected.id == id);
        s.tracks.lemma_filter_pred(ready_at(min_seen), k);
        assert(!s.tracks[i].reported);
        let after = s.after_report(min_seen);
        assert forall|j: int| #![trigger after.tracks[j]]
            0 <= j < after.tracks.len() && after.tracks[j].id == id implies after.tracks[j].reported
            by {
            assert(s.tracks[j].id == id);
            if i < j {
                assert(s.tracks[i].id < s.tracks[j].id);
            }
            if j < i {
                assert(s.tracks[j].id < s.tracks[i].id);
            }
        }
    }
}

/// Over any sequence of frames, recognitions and reports, an object is handed
/// out at most once: one physical object, one pick.
pub proof fn law_handed_out_once(
    start: TrackerState,
    tuning: Tuning,
    steps: Seq<Step>,
    i: int,
    j: int,
    first: u32,
    second: u32,
    id: int,
)
    requires
        is_run(start, tuning, steps),
        0 <= i < j < steps.len(),
        steps[i] == (Step::Report { min_seen: first }),
        steps[j] == (Step::Report { min_seen: second }),
        start.after_all(tuning, steps, i).hands_out(first, id),
    ensures
        !start.after_all(tuning, steps, j).hands_out(second, id),
{
    let a = start.after_all(tuning, steps, i);
    let b = start.after_all(tuning, steps, i + 1);
    let c = start.after_all(tuning, steps, j);
    law_reached_trackers_are_valid(start, tuning, steps, i);
    law_reached_trackers_are_valid(start, tuning, steps, j);
    law_report_spends(a, tuning, first, id);
    assert(b == a.after_report(first));
    lemma_run_grows(start, tuning, steps, i + 1, j);
    assert(c.spent(id)) by {
        assert forall|k: int| #![trigger c.tracks[k]]
            0 <= k < c.tracks.len() && c.tracks[k].id == id implies c.tracks[k].reported by {
            assert(c.tracks[k].id < b.next_id);
        }
    }
    law_report_spends(c, tuning, second, id);
}

/// An object that has been seen often enough and not been handed out yet is
/// handed out.
pub proof fn law_seen_often_enough_is_handed_out(
    s: TrackerState,
    tuning: Tuning,
    min_seen: u32,
    i: int,
)
    requires
        s.valid(tuning),
        0 <= i < s.tracks.len(),
        !s.tracks[i].reported,
        s.tracks[i].frames_seen >= min_seen,
    ensures
        s.hands_out(min_seen, s.tracks[i].id as int),
{
    let ready = s.tracks.filter(ready_at(min_seen));
    s.tracks.lemma_filter_contains(ready_at(min_seen), i);
    let k = choose|k: int| 0 <= k < ready.len() && ready[k] == s.tracks[i];
    assert(s.ready(min_seen)[k].id == s.tracks[i].id);
}

/// An empty belt yields nothing.
pub proof fn law_empty_belt_yields_nothing(
    s: TrackerState,
    tuning: Tuning,
    shift: Float32,
    min_seen: u32,
)
    requires
        s.tracks.len() == 0,
    ensures
        ({
            let next = s.after_frame(tuning, Seq::empty(), shift);
            next.tracks.len() == 0 && next.next_id == s.next_id && next.ready(min_seen).len() == 0
        }),
{
    reveal(Seq::filter);
    let m = s.scene(tuning, Seq::empty(), shift).matching();
    assert(s.scene(tuning, Seq::empty(), shift).moved(m).len() == 0);
}

/// A track that is missed for no more frames than are forgiven is still
/// followed, where the belt has carried it and under its own id.
pub proof fn law_missed_track_is_kept(
    s: TrackerState,
    tuning: Tuning,
    detections: Seq<DetectedObject>,
    shift: Float32,
    m: Seq<Option<int>>,
    t: int,
)
    requires
        0 <= t < s.tracks.len(),
        m.len() == s.tracks.len(),
        m[t] is None,
        s.tracks[t].missed_frames < tuning.max_missed_frames,
    ensures
        s.settled(tuning, detections, shift, m).tracks.contains(aged(s.tracks[t], shift)),
{
    let moved = s.scene(tuning, detections, shift).moved(m);
    moved.lemma_filter_contains(followed(tuning), t);
}

/// No track has this id.
pub open spec fn unknown(s: TrackerState, id: int) -> bool {
    forall|i: int| #![trigger s.tracks[i]] 0 <= i < s.tracks.len() ==> s.tracks[i].id != id
}

/// An id that was given out and whose track is gone never comes back: what
/// appears later has an id of its own.
pub proof fn law_ids_are_not_reused(
    start: TrackerState,
    tuning: Tuning,
    steps: Seq<Step>,
    i: int,
    j: int,
    id: int,
)
    requires
        is_run(start, tuning, steps),
        0 <= i <= j <= steps.len(),
        id < start.after_all(tuning, steps, i).next_id,
        unknown(start.after_all(tuning, steps, i), id),
    ensures
        unknown(start.after_all(tuning, steps, j), id),
{
    let a = start.after_all(tuning, steps, i);
    let b = start.after_all(tuning, steps, j);
    lemma_run_grows(start, tuning, steps, i, j);
    assert forall|k: int| #![trigger b.tracks[k]] 0 <= k < b.tracks.len() implies b.tracks[k].id
        != id by {
        if b.tracks[k].id == id {
            let l = choose|l: int| #![trigger a.tracks[l]]
                0 <= l < a.tracks.len() && a.tracks[l].id == b.tracks[k].id;
            assert(a.tracks[l].id == id);
        }
    }
}

/// Within one report no object comes twice.
pub proof fn law_report_has_no_doubles(
    s: TrackerState,
    tuning: Tuning,
    min_seen: u32,
    i: int,
    j: int,
)
    requires
        s.valid(tuning),
        0 <= i < j < s.ready(min_seen).len(),
    ensures
        s.ready(min_seen)[i].id < s.ready(min_seen)[j].id,
{
    let ready = s.tracks.filter(ready_at(min_seen));
    super::tracker::lemma_filter_keeps_order(s.tracks, ready_at(min_seen));
    assert(s.tracks.contains(ready[i]));
    assert(s.tracks.contains(ready[j]));
    let a = choose|a: int| 0 <= a < s.tracks.len() && s.tracks[a] == ready[i];
    let b = choose|b: int| 0 <= b < s.tracks.len() && s.tracks[b] == ready[j];
    assert(s.tracks[a].detected.id == s.tracks[a].id);
    assert(s.tracks[b].detected.id == s.tracks[b].id);
}

/// Over any sequence of calls an object is put to recognition at most once.
pub proof fn law_recognised_once(
    start: TrackerState,
    tuning: Tuning,
    steps: Seq<Step>,
    i: int,
    j: int,
    first: u32,
    second: u32,
    classes: Seq<Option<ClassName>>,
    id: int,
)
    requires
        is_run(start, tuning, steps),
        0 <= i < j < steps.len(),
        steps[i] == (Step::Classify { min_seen: first, classes }),
        start.after_all(tuning, steps, i).asks_class(first, id),
    ensures
        !start.after_all(tuning, steps, j).asks_class(second, id),
{
    let a = start.after_all(tuning, steps, i);
    let b = start.after_all(tuning, steps, i + 1);
    let c = start.after_all(tuning, steps, j);
    law_reached_trackers_are_valid(start, tuning, steps, i);
    let x = choose|k: int| #![trigger a.tracks[k]]
        0 <= k < a.tracks.len() && a.tracks[k].id == id && awaits_class(a.tracks[k], first);
    assert(b == a.after_classes(first, classes));
    assert(b.settled_class(id)) by {
        assert forall|k: int| #![trigger b.tracks[k]]
            0 <= k < b.tracks.len() && b.tracks[k].id == id implies b.tracks[k].classified by {
            assert(a.tracks[k].id == id);
            if x < k {
                assert(a.tracks[x].id < a.tracks[k].id);
            }
            if k < x {
                assert(a.tracks[k].id < a.tracks[x].id);
            }
        }
        assert(a.tracks[x].id < a.next_id);
    }
    lemma_run_grows(start, tuning, steps, i + 1, j);
    assert forall|k: int| #![trigger c.tracks[k]]
        0 <= k < c.tracks.len() && c.tracks[k].id == id implies c.tracks[k].classified by {
        assert(c.tracks[k].id < b.next_id);
    }
}

/// A track that is given up after its object was handed out leaves a ghost
/// where the belt has carried it, for as many frames as ghosts are kept.
pub proof fn law_reported_track_leaves_a_ghost(
    s: TrackerState,
    tuning: Tuning,
    detections: Seq<DetectedObject>,
    shift: Float32,
    m: Seq<Option<int>>,
    t: int,
)
    requires
        0 <= t < s.tracks.len(),
        m.len() == s.tracks.len(),
        m[t] is None,
        s.tracks[t].reported,
        s.tracks[t].missed_frames == tuning.max_missed_frames,
        tuning.max_missed_frames < u32::MAX,
    ensures
        s.settled(tuning, detections, shift, m).ghosts.contains(
            Departed {
                center: predicted(s.tracks[t], shift),
                area: area_of(s.tracks[t].last_rect),
                ttl: tuning.ghost_frames,
            },
        ),
{
    let moved = s.scene(tuning, detections, shift).moved(m);
    let gone = moved.filter(given_up(tuning));
    let remembered = gone.map_values(|t: TrackedObject| departed(tuning, t));
    moved.lemma_filter_contains(given_up(tuning), t);
    let k = choose|k: int| 0 <= k < gone.len() && gone[k] == moved[t];
    assert(remembered[k] == departed(tuning, moved[t]));
    let before = drifted(s.ghosts, shift);
    assert((before + remembered)[before.len() + k] == remembered[k]);
}

/// A ghost drifts with the belt and is forgotten one frame nearer to its end.
pub proof fn law_ghost_lasts(ghosts: Seq<Departed>, shift: Float32, i: int)
    requires
        0 <= i < ghosts.len(),
        ghosts[i].ttl > 1,
    ensures
        drifted(ghosts, shift).contains(
            Departed {
                center: (ghosts[i].center.0, ghosts[i].center.1.sum(shift)),
                area: ghosts[i].area,
                ttl: (ghosts[i].ttl - 1) as u32,
            },
        ),
{
    let moved = ghosts.map_values(|g: Departed| carried(g, shift));
    moved.lemma_filter_contains(|g: Departed| g.ttl > 0, i);
}

proof fn lemma_first_ghost_exists(tuning: Tuning, ghosts: Seq<Departed>, r: Rect, i: int)
    requires
        0 <= i < ghosts.len(),
        haunted_by(tuning, ghosts[i], r),
    ensures
        first_ghost(tuning, ghosts, r) is Some,
    decreases i,
{
    if exists|j: int| #![trigger ghosts[j]] 0 <= j < i && haunted_by(tuning, ghosts[j], r) {
        let j = choose|j: int| #![trigger ghosts[j]] 0 <= j < i && haunted_by(
            tuning,
            ghosts[j],
            r,
        );
        lemma_first_ghost_exists(tuning, ghosts, r, j);
    } else {
        assert(is_first_ghost(tuning, ghosts, r, i));
    }
}

/// An object that comes up where a ghost is, and of its size, is followed
/// again but never handed out a second time.
pub proof fn law_reappearing_object_is_not_picked_again(
    s: TrackerState,
    tuning: Tuning,
    d: DetectedObject,
    i: int,
)
    requires
        s.valid(tuning),
        s.next_id < u64::MAX,
        !is_fragment(tuning, s.tracks, d.rect),
        0 <= i < s.ghosts.len(),
        haunted_by(tuning, s.ghosts[i], d.rect),
    ensures
        s.born(tuning, d).tracks.len() == s.tracks.len() + 1,
        s.born(tuning, d).tracks.last().id == s.next_id,
        s.born(tuning, d).spent(s.next_id),
{
    lemma_first_ghost_exists(tuning, s.ghosts, d.rect, i);
    let b = s.born(tuning, d);
    assert forall|j: int| #![trigger b.tracks[j]]
        0 <= j < b.tracks.len() && b.tracks[j].id == s.next_id implies b.tracks[j].reported by {
        if j < s.tracks.len() {
            assert(b.tracks[j] == s.tracks[j]);
        }
    }
}

/// A fragment of an object that is in view starts no track.
pub proof fn law_fragment_is_suppressed(s: TrackerState, tuning: Tuning, d: DetectedObject, i: int)
    requires
        0 <= i < s.tracks.len(),
        fragment_of(tuning, s.tracks[i], d.rect),
    ensures
        s.born(tuning, d) == s,
{
}

/// A track keeps the class it was recognised as for as long as it is
/// followed.
pub proof fn law_class_is_kept(t: TrackedObject, d: DetectedObject, shift: Float32)
    requires
        t.classified,
    ensures
        refreshed(t, d).classified && refreshed(t, d).detected.class == t.detected.class,
        aged(t, shift).classified && aged(t, shift).detected.class == t.detected.class,
{
}

} // verus!

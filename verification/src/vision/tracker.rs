//! Multi-frame object tracking: greedy nearest-neighbour matching of
//! detections to tracks, with belt-motion prediction along pixel +y.
use super::{clone_class, ClassName, DetectedObject, Rect};
use crate::float::Float32;
use vstd::prelude::*;

verus! {

/// One physical object being followed across frames. All geometry is in
/// pixel coordinates (camera frame).
#[derive(Debug)]
pub struct TrackedObject {
    pub id: u64,
    pub last_rect: Rect,
    /// Predicted centre in pixels. Refreshed from the detection on a match;
    /// advanced by the belt shift on a miss, so the prediction keeps
    /// following the belt across consecutive missed frames.
    pub center: (Float32, Float32),
    /// Consecutive frames without a matching detection.
    pub missed_frames: u32,
    /// Total frames in which this track was detected.
    pub frames_seen: u32,
    /// Set once the track has been emitted by `take_ready`.
    pub reported: bool,
    /// Set once recognition has been attempted, whatever the result.
    pub classified: bool,
    pub detected: DetectedObject,
}

/// A recently evicted track that had already been reported. Kept briefly,
/// drifting with the belt, so the same object reappearing after a long
/// occlusion is tracked again without being picked a second time.
#[derive(Clone, Copy, Debug)]
pub struct Departed {
    pub center: (Float32, Float32),
    pub area: Float32,
    /// Frames left before this ghost is forgotten.
    pub ttl: u32,
}

/// The tuning constants of a tracker.
#[derive(Clone, Copy, Debug)]
pub struct Tuning {
    /// Max distance (px) between a detection centre and a track's predicted
    /// centre to still count as the same object.
    pub max_match_dist_px: Float32,
    /// Largest ratio between a track's and a detection's bounding-box areas
    /// for them to still be considered the same object.
    pub max_area_ratio: Float32,
    /// A new detection overlapping an already-tracked object by at least this
    /// coefficient is a fragment of a split blob and is suppressed.
    pub min_birth_overlap: Float32,
    /// How many frames a ghost is remembered.
    pub ghost_frames: u32,
    /// Tracks unmatched for more than this many consecutive frames are
    /// evicted.
    pub max_missed_frames: u32,
}

pub struct Tracker {
    pub next_id: u64,
    pub tracks: Vec<TrackedObject>,
    /// Recently evicted, already-reported tracks.
    pub ghosts: Vec<Departed>,
    pub tuning: Tuning,
}

/// The contents of a tracker.
pub struct TrackerState {
    pub next_id: int,
    pub tracks: Seq<TrackedObject>,
    pub ghosts: Seq<Departed>,
}

// --- Geometry ---

pub open spec fn center_of(r: Rect) -> (Float32, Float32) {
    let two = Float32::nearest(2, 1);
    (
        Float32::nearest(r.x as int, 1).sum(Float32::nearest(r.width as int, 1).quotient(two)),
        Float32::nearest(r.y as int, 1).sum(Float32::nearest(r.height as int, 1).quotient(two)),
    )
}

pub open spec fn at_least_zero(v: int) -> int {
    if v < 0 {
        0
    } else {
        v
    }
}

pub open spec fn area_of(r: Rect) -> Float32 {
    Float32::nearest(at_least_zero(r.width as int), 1).product(
        Float32::nearest(at_least_zero(r.height as int), 1),
    )
}

pub open spec fn least(a: int, b: int) -> int {
    if a < b {
        a
    } else {
        b
    }
}

pub open spec fn greatest(a: int, b: int) -> int {
    if a < b {
        b
    } else {
        a
    }
}

/// Area shared by two rectangles.
pub open spec fn shared_area(a: Rect, b: Rect) -> Float32 {
    let w = least(a.x + a.width, b.x + b.width) - greatest(a.x as int, b.x as int);
    let h = least(a.y + a.height, b.y + b.height) - greatest(a.y as int, b.y as int);
    Float32::nearest(at_least_zero(w), 1).product(Float32::nearest(at_least_zero(h), 1))
}

/// The shared area over the smaller of the two areas; zero where that is
/// empty.
pub open spec fn overlap(a: Rect, b: Rect) -> Float32 {
    let zero = Float32::nearest(0, 1);
    let smaller = area_of(a).smaller(area_of(b));
    if zero.below(smaller) {
        shared_area(a, b).quotient(smaller)
    } else {
        zero
    }
}

/// The larger of two areas is at most `max_ratio` times the smaller, and
/// neither is zero.
pub open spec fn similar_areas(a: Float32, b: Float32, max_ratio: Float32) -> bool {
    let (lo, hi) = if a.at_most(b) { (a, b) } else { (b, a) };
    Float32::nearest(0, 1).below(lo) && hi.at_most(lo.product(max_ratio))
}

pub open spec fn distance(a: (Float32, Float32), b: (Float32, Float32)) -> Float32 {
    let dx = a.0.difference(b.0);
    let dy = a.1.difference(b.1);
    dx.product(dx).sum(dy.product(dy)).root()
}

fn zero() -> (r: Float32)
    ensures
        r == Float32::nearest(0, 1),
{
    Float32::of(0)
}

pub fn rect_center(r: &Rect) -> (c: (Float32, Float32))
    ensures
        c == center_of(*r),
{
    let two = Float32::of(2);
    (
        Float32::of(r.x as i64).plus(Float32::of(r.width as i64).over(two)),
        Float32::of(r.y as i64).plus(Float32::of(r.height as i64).over(two)),
    )
}

fn clamped(v: i64) -> (r: i64)
    ensures
        r == at_least_zero(v as int),
{
    if v < 0 {
        0
    } else {
        v
    }
}

pub fn rect_area(r: &Rect) -> (a: Float32)
    ensures
        a == area_of(*r),
{
    Float32::of(clamped(r.width as i64)).times(Float32::of(clamped(r.height as i64)))
}

/// Whether two bounding-box areas are within `max_ratio` of each other. A
/// zero area is never compatible.
pub fn areas_compatible(a: Float32, b: Float32, max_ratio: Float32) -> (r: bool)
    ensures
        r == similar_areas(a, b, max_ratio),
{
    let (lo, hi) = if a.le(b) {
        (a, b)
    } else {
        (b, a)
    };
    zero().lt(lo) && hi.le(lo.times(max_ratio))
}

fn span(a: i32, a_len: i32, b: i32, b_len: i32) -> (r: i64)
    ensures
        r == at_least_zero(
            least(a + a_len, b + b_len) - greatest(a as int, b as int),
        ),
{
    let end_a: i64 = a as i64 + a_len as i64;
    let end_b: i64 = b as i64 + b_len as i64;
    let end: i64 = if end_a < end_b {
        end_a
    } else {
        end_b
    };
    let start: i64 = if a < b {
        b as i64
    } else {
        a as i64
    };
    clamped(end - start)
}

pub fn rect_intersection_area(a: &Rect, b: &Rect) -> (r: Float32)
    ensures
        r == shared_area(*a, *b),
{
    let w: i64 = span(a.x, a.width, b.x, b.width);
    let h: i64 = span(a.y, a.height, b.y, b.height);
    Float32::of(w).times(Float32::of(h))
}

/// Overlap coefficient: intersection over the smaller box area. High when one
/// box sits largely inside the other (a split fragment); near zero for boxes
/// that merely touch.
pub fn overlap_coeff(a: &Rect, b: &Rect) -> (r: Float32)
    ensures
        r == overlap(*a, *b),
{
    let min_area = rect_area(a).min(rect_area(b));
    if zero().lt(min_area) {
        rect_intersection_area(a, b).over(min_area)
    } else {
        zero()
    }
}

fn gap(a: (Float32, Float32), b: (Float32, Float32)) -> (r: Float32)
    ensures
        r == distance(a, b),
{
    let dx = a.0.minus(b.0);
    let dy = a.1.minus(b.1);
    dx.times(dx).plus(dy.times(dy)).sqrt()
}

// --- Matching ---

/// Where the belt has carried a track since the previous frame.
pub open spec fn predicted(t: TrackedObject, shift: Float32) -> (Float32, Float32) {
    (t.center.0, t.center.1.sum(shift))
}

/// Distance from a detection to where a track is predicted.
#[verifier::opaque]
pub open spec fn cost(t: TrackedObject, d: DetectedObject, shift: Float32) -> Float32 {
    distance(center_of(d.rect), predicted(t, shift))
}

/// A detection may be the object of a track: near enough, and of like size.
#[verifier::opaque]
pub open spec fn close(
    tuning: Tuning,
    t: TrackedObject,
    d: DetectedObject,
    shift: Float32,
) -> bool {
    &&& cost(t, d, shift).at_most(tuning.max_match_dist_px)
    &&& similar_areas(area_of(t.last_rect), area_of(d.rect), tuning.max_area_ratio)
}

/// What one frame's matching is made from.
pub struct Scene {
    pub tuning: Tuning,
    pub tracks: Seq<TrackedObject>,
    pub detections: Seq<DetectedObject>,
    pub shift: Float32,
}

impl Scene {
    /// Track `t` and detection `d` exist and may belong together.
    pub open spec fn may_pair(self, t: int, d: int) -> bool {
        &&& 0 <= t < self.tracks.len()
        &&& 0 <= d < self.detections.len()
        &&& close(self.tuning, self.tracks[t], self.detections[d], self.shift)
    }

    pub open spec fn rank(self, t: int, d: int) -> int {
        cost(self.tracks[t], self.detections[d], self.shift).rank()
    }

    /// The first pair goes before the second: it is nearer, or as near with
    /// the earlier track, or the same track with the earlier detection.
    pub open spec fn before(self, t1: int, d1: int, t2: int, d2: int) -> bool {
        let a = self.rank(t1, d1);
        let b = self.rank(t2, d2);
        a < b || (a == b && (t1 < t2 || (t1 == t2 && d1 < d2)))
    }

    /// A pair loses to one that was taken, goes before it, and shares its
    /// track or its detection.
    pub open spec fn loses(self, m: Seq<Option<int>>, t: int, d: int) -> bool {
        ||| (m[t] is Some && self.before(t, m[t]->0, t, d))
        ||| exists|t2: int| #![trigger m[t2]]
            0 <= t2 < m.len() && m[t2] == Some(d) && self.before(t2, d, t, d)
    }

    /// `m` gives each track its detection, if any: no detection twice, and
    /// every pair that may belong together is taken or loses to a better one.
    pub open spec fn is_matching(self, m: Seq<Option<int>>) -> bool {
        &&& m.len() == self.tracks.len()
        &&& forall|t: int|
            0 <= t < m.len() && (#[trigger] m[t]) is Some ==> self.may_pair(t, m[t]->0)
        &&& forall|t1: int, t2: int|
            0 <= t1 < t2 < m.len() && (#[trigger] m[t1]) is Some ==> m[t1] != #[trigger] m[t2]
        &&& forall|t: int, d: int|
            #[trigger] self.may_pair(t, d) && m[t] != Some(d) ==> self.loses(m, t, d)
    }

    /// The matching of this frame.
    pub open spec fn matching(self) -> Seq<Option<int>> {
        choose|m: Seq<Option<int>>| self.is_matching(m)
    }

    /// No two different pairs are equally good, and two matchings agree on
    /// every pair that goes before `(t, d)`.
    proof fn lemma_agree(self, m1: Seq<Option<int>>, m2: Seq<Option<int>>, t: int, d: int)
        requires
            self.is_matching(m1),
            self.is_matching(m2),
            m1[t] == Some(d),
            0 <= t < m1.len(),
        ensures
            m2[t] == Some(d),
        decreases self.earlier(t, d).len(),
    {
        if m2[t] != Some(d) {
            assert(self.may_pair(t, d));
            assert(self.loses(m2, t, d));
            let (t2, d2) = if m2[t] is Some && self.before(t, m2[t]->0, t, d) {
                (t, m2[t]->0)
            } else {
                let t2 = choose|t2: int| #![trigger m2[t2]]
                    0 <= t2 < m2.len() && m2[t2] == Some(d) && self.before(t2, d, t, d);
                (t2, d)
            };
            assert(m2[t2] == Some(d2));
            assert(self.may_pair(t2, d2));
            self.lemma_earlier_shrinks(t2, d2, t, d);
            self.lemma_agree(m2, m1, t2, d2);
            assert(m1[t2] == Some(d2));
            assert(m1[t] == Some(d));
            assert(false);
        }
    }

    /// The pairs that go before `(t, d)`, numbered row by row.
    spec fn earlier(self, t: int, d: int) -> Set<int> {
        let n = self.detections.len() as int;
        vstd::set_lib::set_int_range(0, self.tracks.len() * n).filter(
            |p: int| self.before(p / n, p % n, t, d),
        )
    }

    proof fn lemma_earlier_shrinks(self, t2: int, d2: int, t: int, d: int)
        requires
            self.may_pair(t2, d2),
            self.before(t2, d2, t, d),
        ensures
            self.earlier(t2, d2).len() < self.earlier(t, d).len(),
    {
        let n = self.detections.len() as int;
        let all = vstd::set_lib::set_int_range(0, self.tracks.len() * n);
        let p = t2 * n + d2;
        vstd::set_lib::lemma_int_range(0, self.tracks.len() * n);
        vstd::arithmetic::div_mod::lemma_fundamental_div_mod_converse(p, n, t2, d2);
        assert(0 <= p < self.tracks.len() * n) by (nonlinear_arith)
            requires
                p == t2 * n + d2,
                0 <= t2 < self.tracks.len(),
                0 <= d2 < n,
        ;
        let a = self.earlier(t2, d2);
        let b = self.earlier(t, d);
        vstd::set_lib::lemma_len_subset(b, all);
        assert(b.contains(p));
        assert(!a.contains(p));
        assert(a.subset_of(b.remove(p)));
        vstd::set_lib::lemma_len_subset(a, b.remove(p));
    }

    /// A frame has only one matching.
    pub proof fn law_one_matching(self, m1: Seq<Option<int>>, m2: Seq<Option<int>>)
        requires
            self.is_matching(m1),
            self.is_matching(m2),
        ensures
            m1 == m2,
    {
        assert forall|t: int| 0 <= t < m1.len() implies m1[t] == m2[t] by {
            if m1[t] is Some {
                self.lemma_agree(m1, m2, t, m1[t]->0);
            } else if m2[t] is Some {
                self.lemma_agree(m2, m1, t, m2[t]->0);
            }
        }
        assert(m1 =~= m2);
    }

    /// `m` is a matching as far as the pairs in `pairs` go, numbered row by
    /// row.
    spec fn matches_among(self, m: Seq<Option<int>>, pairs: Set<int>) -> bool {
        let n = self.detections.len() as int;
        &&& m.len() == self.tracks.len()
        &&& forall|t: int| #![trigger m[t]]
            0 <= t < m.len() && m[t] is Some ==> 0 <= m[t]->0 < n && pairs.contains(
                t * n + m[t]->0,
            )
        &&& forall|t1: int, t2: int|
            0 <= t1 < t2 < m.len() && (#[trigger] m[t1]) is Some ==> m[t1] != #[trigger] m[t2]
        &&& forall|p: int| #[trigger]
            pairs.contains(p) && m[p / n] != Some(p % n) ==> self.loses(m, p / n, p % n)
    }

    /// Among any pairs there is one that goes last.
    proof fn lemma_last_pair(self, pairs: Set<int>) -> (last: int)
        requires
            pairs.finite(),
            pairs.len() > 0,
            self.detections.len() > 0,
        ensures
            pairs.contains(last),
            forall|p: int| #[trigger]
                pairs.contains(p) && p != last ==> self.before(
                    p / self.detections.len() as int,
                    p % self.detections.len() as int,
                    last / self.detections.len() as int,
                    last % self.detections.len() as int,
                ),
        decreases pairs.len(),
    {
        let n = self.detections.len() as int;
        let p = pairs.choose();
        let rest = pairs.remove(p);
        if rest.len() == 0 {
            assert forall|q: int| #[trigger] pairs.contains(q) implies q == p by {
                if q != p {
                    assert(rest.contains(q));
                }
            }
            p
        } else {
            let q = self.lemma_last_pair(rest);
            vstd::arithmetic::div_mod::lemma_fundamental_div_mod(p, n);
            vstd::arithmetic::div_mod::lemma_fundamental_div_mod(q, n);
            let last = if self.before(p / n, p % n, q / n, q % n) {
                q
            } else {
                p
            };
            assert forall|k: int| #[trigger] pairs.contains(k) && k != last implies self.before(
                k / n,
                k % n,
                last / n,
                last % n,
            ) by {
                if k != p {
                    assert(rest.contains(k));
                }
            }
            last
        }
    }

    /// Taking the pairs one by one, each where neither its track nor its
    /// detection is taken yet, makes a matching.
    proof fn lemma_greedy(self, pairs: Set<int>) -> (m: Seq<Option<int>>)
        requires
            pairs.finite(),
            forall|p: int| #[trigger]
                pairs.contains(p) ==> 0 <= p < self.tracks.len() * self.detections.len(),
        ensures
            self.matches_among(m, pairs),
        decreases pairs.len(),
    {
        let n = self.detections.len() as int;
        if pairs.len() == 0 {
            let m = Seq::new(self.tracks.len(), |t: int| None);
            m
        } else {
            let any = pairs.choose();
            assert(pairs.contains(any));
            assert(n > 0) by (nonlinear_arith)
                requires
                    0 <= any < self.tracks.len() * n,
                    n >= 0,
            ;
            let last = self.lemma_last_pair(pairs);
            let (t, d) = (last / n, last % n);
            vstd::arithmetic::div_mod::lemma_fundamental_div_mod(last, n);
            assert(0 <= t < self.tracks.len()) by (nonlinear_arith)
                requires
                    last == n * t + d,
                    0 <= d < n,
                    0 <= last < self.tracks.len() * n,
            ;
            assert(t * n + d == last) by (nonlinear_arith)
                requires
                    last == n * t + d,
            ;
            let rest = pairs.remove(last);
            let before = self.lemma_greedy(rest);
            let m = if before[t] is None && !is_matched(before, d) {
                before.update(t, Some(d))
            } else {
                before
            };
            assert forall|p: int| #[trigger] pairs.contains(p) && m[p / n] != Some(p % n) implies
                self.loses(m, p / n, p % n) by {
                if p != last {
                    let (row, column) = (p / n, p % n);
                    vstd::arithmetic::div_mod::lemma_fundamental_div_mod(p, n);
                    assert(0 <= row < self.tracks.len()) by (nonlinear_arith)
                        requires
                            p == n * row + column,
                            0 <= column < n,
                            0 <= p < self.tracks.len() * n,
                    ;
                    assert(rest.contains(p));
                    assert(self.loses(before, p / n, p % n));
                    self.lemma_still_loses(before, m, t, p / n, p % n);
                } else if before[t] is Some {
                    let q = t * n + before[t]->0;
                    assert(rest.contains(q));
                    vstd::arithmetic::div_mod::lemma_fundamental_div_mod_converse(
                        q,
                        n,
                        t,
                        before[t]->0,
                    );
                } else {
                    let u = choose|u: int| #![trigger before[u]]
                        0 <= u < before.len() && before[u] == Some(d);
                    let q = u * n + d;
                    assert(rest.contains(q));
                    vstd::arithmetic::div_mod::lemma_fundamental_div_mod_converse(q, n, u, d);
                    assert(m[u] == Some(d));
                }
            }
            m
        }
    }

    /// A pair goes on losing when a free track takes a detection.
    proof fn lemma_still_loses(
        self,
        m1: Seq<Option<int>>,
        m2: Seq<Option<int>>,
        free: int,
        t: int,
        d: int,
    )
        requires
            self.loses(m1, t, d),
            m1.len() == m2.len(),
            m2 == m1 || (m1[free] is None && 0 <= free < m1.len() && exists|x: int|
                m2 == #[trigger] m1.update(free, Some(x))),
            0 <= t < m1.len(),
        ensures
            self.loses(m2, t, d),
    {
        if !(m1[t] is Some && self.before(t, m1[t]->0, t, d)) {
            let u = choose|u: int| #![trigger m1[u]]
                0 <= u < m1.len() && m1[u] == Some(d) && self.before(u, d, t, d);
            assert(m2[u] == Some(d));
        }
    }

    /// Every frame has a matching.
    pub proof fn law_a_matching_exists(self)
        ensures
            self.is_matching(self.matching()),
    {
        let n = self.detections.len() as int;
        let all = vstd::set_lib::set_int_range(0, self.tracks.len() * n);
        let pairs = all.filter(|p: int| self.may_pair(p / n, p % n));
        vstd::set_lib::lemma_int_range(0, self.tracks.len() * n);
        vstd::set_lib::lemma_len_subset(pairs, all);
        let m = self.lemma_greedy(pairs);
        assert forall|t: int|
            0 <= t < m.len() && (#[trigger] m[t]) is Some implies self.may_pair(t, m[t]->0) by {
            let p = t * n + m[t]->0;
            assert(pairs.contains(p));
            vstd::arithmetic::div_mod::lemma_fundamental_div_mod_converse(p, n, t, m[t]->0);
        }
        assert forall|t: int, d: int|
            #[trigger] self.may_pair(t, d) && m[t] != Some(d) implies self.loses(m, t, d) by {
            let p = t * n + d;
            vstd::arithmetic::div_mod::lemma_fundamental_div_mod_converse(p, n, t, d);
            assert(0 <= p < self.tracks.len() * n) by (nonlinear_arith)
                requires
                    p == t * n + d,
                    0 <= t < self.tracks.len(),
                    0 <= d < n,
            ;
            assert(pairs.contains(p));
        }
        assert(self.is_matching(m));
    }
}

/// A pair that may belong together, with its distance.
type Candidate = (Float32, usize, usize);

/// Every candidate is a pair of the scene, with its distance.
spec fn sound(scene: Scene, c: Seq<Candidate>) -> bool {
    forall|i: int| #![trigger c[i]]
        0 <= i < c.len() ==> scene.may_pair(c[i].1 as int, c[i].2 as int) && c[i].0 == cost(
            scene.tracks[c[i].1 as int],
            scene.detections[c[i].2 as int],
            scene.shift,
        )
}

/// The candidates stand in the order in which they are to be taken.
spec fn ordered(scene: Scene, c: Seq<Candidate>) -> bool {
    forall|i: int, j: int| #![trigger c[i], c[j]]
        0 <= i < j < c.len() ==> scene.before(
            c[i].1 as int,
            c[i].2 as int,
            c[j].1 as int,
            c[j].2 as int,
        )
}

spec fn listed(c: Seq<Candidate>, t: int, d: int) -> bool {
    exists|i: int| #![trigger c[i]] 0 <= i < c.len() && c[i].1 == t && c[i].2 == d
}

/// The candidates are the pairs that come before `(t, d)` row by row.
spec fn complete_to(scene: Scene, c: Seq<Candidate>, t: int, d: int) -> bool {
    &&& forall|t2: int, d2: int|
        #[trigger] scene.may_pair(t2, d2) && (t2 < t || (t2 == t && d2 < d)) ==> listed(c, t2, d2)
    &&& forall|i: int| #![trigger c[i]]
        0 <= i < c.len() ==> c[i].1 < t || (c[i].1 == t && c[i].2 < d)
}

proof fn lemma_insert_lists(c: Seq<Candidate>, at: int, p: Candidate, t: int, d: int)
    requires
        0 <= at <= c.len(),
        listed(c, t, d) || (p.1 == t && p.2 == d),
    ensures
        listed(c.insert(at, p), t, d),
{
    let n = c.insert(at, p);
    if p.1 == t && p.2 == d {
        assert(n[at] == p);
    } else {
        let i = choose|i: int| #![trigger c[i]] 0 <= i < c.len() && c[i].1 == t && c[i].2 == d;
        if i < at {
            assert(n[i] == c[i]);
        } else {
            assert(n[i + 1] == c[i]);
        }
    }
}

/// Puts a candidate, the last of them row by row, behind those that are at
/// most as far.
fn insert_candidate(c: &mut Vec<Candidate>, p: Candidate, scene: Ghost<Scene>)
    requires
        sound(scene@, old(c)@),
        ordered(scene@, old(c)@),
        complete_to(scene@, old(c)@, p.1 as int, p.2 as int),
        scene@.may_pair(p.1 as int, p.2 as int),
        p.0 == cost(
            scene@.tracks[p.1 as int],
            scene@.detections[p.2 as int],
            scene@.shift,
        ),
    ensures
        sound(scene@, final(c)@),
        ordered(scene@, final(c)@),
        complete_to(scene@, final(c)@, p.1 as int, p.2 + 1),
{
    let ghost before = c@;
    let mut at: usize = c.len();
    while at > 0 && p.0.ranks_below(c[at - 1].0)
        invariant
            at <= c.len(),
            c@ == before,
            sound(scene@, before),
            ordered(scene@, before),
            p.0 == cost(
                scene@.tracks[p.1 as int],
                scene@.detections[p.2 as int],
                scene@.shift,
            ),
            forall|j: int| at <= j < c.len() ==> p.0.rank() < (#[trigger] before[j]).0.rank(),
        decreases at,
    {
        at = at - 1;
    }
    c.insert(at, p);
    proof {
        let after = c@;
        assert(after == before.insert(at as int, p));
        assert forall|i: int, j: int| #![trigger after[i], after[j]]
            0 <= i < j < after.len() implies scene@.before(
            after[i].1 as int,
            after[i].2 as int,
            after[j].1 as int,
            after[j].2 as int,
        ) by {
            if j < at {
                assert(after[i] == before[i] && after[j] == before[j]);
            } else if i > at {
                assert(after[i] == before[i - 1] && after[j] == before[j - 1]);
            } else if j == at {
                assert(after[i] == before[i]);
                assert(before[at - 1].0.rank() <= p.0.rank());
                if i < at - 1 {
                    let x = before[i];
                    let y = before[at - 1];
                    assert(scene@.before(x.1 as int, x.2 as int, y.1 as int, y.2 as int));
                }
            } else if i == at {
                assert(after[j] == before[j - 1]);
            } else {
                assert(after[i] == before[i] && after[j] == before[j - 1]);
            }
        }
        assert forall|t2: int, d2: int|
            #[trigger] scene@.may_pair(t2, d2) && (t2 < p.1 || (t2 == p.1 && d2 < p.2
                + 1)) implies listed(after, t2, d2) by {
            lemma_insert_lists(before, at as int, p, t2, d2);
        }
        assert forall|i: int| #![trigger after[i]] 0 <= i < after.len() implies after[i].1 < p.1
            || (after[i].1 == p.1 && after[i].2 < p.2 + 1) by {
            if i < at {
                assert(after[i] == before[i]);
            } else if i > at {
                assert(after[i] == before[i - 1]);
            }
        }
        assert forall|i: int| #![trigger after[i]] 0 <= i < after.len() implies scene@.may_pair(
            after[i].1 as int,
            after[i].2 as int,
        ) && after[i].0 == cost(
            scene@.tracks[after[i].1 as int],
            scene@.detections[after[i].2 as int],
            scene@.shift,
        ) by {
            if i < at {
                assert(after[i] == before[i]);
            } else if i > at {
                assert(after[i] == before[i - 1]);
            }
        }
    }
}

/// All the pairs that may belong together, nearest first.
fn candidates(
    tuning: Tuning,
    tracks: &Vec<TrackedObject>,
    detections: &Vec<DetectedObject>,
    shift: Float32,
) -> (c: Vec<Candidate>)
    ensures
        ({
            let scene = Scene { tuning, tracks: tracks@, detections: detections@, shift };
            &&& sound(scene, c@)
            &&& ordered(scene, c@)
            &&& complete_to(scene, c@, tracks.len() as int, 0)
        }),
{
    let ghost scene = Scene { tuning, tracks: tracks@, detections: detections@, shift };
    let mut c: Vec<Candidate> = Vec::new();
    let mut t: usize = 0;
    while t < tracks.len()
        invariant
            t <= tracks.len(),
            scene == (Scene { tuning, tracks: tracks@, detections: detections@, shift }),
            sound(scene, c@),
            ordered(scene, c@),
            complete_to(scene, c@, t as int, 0),
        decreases tracks.len() - t,
    {
        let track = &tracks[t];
        let at = (track.center.0, track.center.1.plus(shift));
        let track_area = rect_area(&track.last_rect);
        let mut d: usize = 0;
        while d < detections.len()
            invariant
                t < tracks.len(),
                d <= detections.len(),
                *track == tracks@[t as int],
                at == predicted(*track, shift),
                track_area == area_of(track.last_rect),
                scene == (Scene { tuning, tracks: tracks@, detections: detections@, shift }),
                sound(scene, c@),
                ordered(scene, c@),
                complete_to(scene, c@, t as int, d as int),
            decreases detections.len() - d,
        {
            let rect = &detections[d].rect;
            let dist = gap(rect_center(rect), at);
            proof {
                reveal(cost);
                reveal(close);
            }
            if dist.le(tuning.max_match_dist_px) && areas_compatible(
                track_area,
                rect_area(rect),
                tuning.max_area_ratio,
            ) {
                assert(scene.may_pair(t as int, d as int));
                insert_candidate(&mut c, (dist, t, d), Ghost(scene));
            } else {
                assert(!scene.may_pair(t as int, d as int));
            }
            d = d + 1;
        }
        t = t + 1;
    }
    c
}

/// The matching as a mathematical sequence.
pub open spec fn as_matching(m: Seq<Option<usize>>) -> Seq<Option<int>> {
    m.map_values(
        |o: Option<usize>|
            match o {
                Some(d) => Some(d as int),
                None => None,
            },
    )
}

/// What taking the first `n` candidates greedily has led to.
spec fn greedy_to(
    scene: Scene,
    c: Seq<Candidate>,
    n: int,
    m: Seq<Option<usize>>,
    taken: Seq<bool>,
) -> bool {
    let w = as_matching(m);
    &&& m.len() == scene.tracks.len()
    &&& taken.len() == scene.detections.len()
    &&& forall|t: int| #![trigger m[t]]
        0 <= t < m.len() && m[t] is Some ==> m[t]->0 < taken.len() && taken[m[t]->0 as int]
            && scene.may_pair(t, m[t]->0 as int) && exists|j: int| #![trigger c[j]]
            0 <= j < n && c[j].1 == t && c[j].2 == m[t]->0
    &&& forall|d: int| #![trigger taken[d]]
        0 <= d < taken.len() && taken[d] ==> exists|t: int| #![trigger m[t]]
            0 <= t < m.len() && m[t] is Some && m[t]->0 == d
    &&& forall|t1: int, t2: int| #![trigger m[t1], m[t2]]
        0 <= t1 < t2 < m.len() && m[t1] is Some && m[t2] is Some ==> m[t1]->0 != m[t2]->0
    &&& forall|j: int| #![trigger c[j]]
        0 <= j < n ==> w[c[j].1 as int] == Some(c[j].2 as int) || scene.loses(
            w,
            c[j].1 as int,
            c[j].2 as int,
        )
}

/// Takes the candidates one by one, each track and each detection once.
fn assign(
    c: &Vec<Candidate>,
    track_count: usize,
    detection_count: usize,
    scene: Ghost<Scene>,
) -> (r: (Vec<Option<usize>>, Vec<bool>))
    requires
        track_count == scene@.tracks.len(),
        detection_count == scene@.detections.len(),
        sound(scene@, c@),
        ordered(scene@, c@),
        complete_to(scene@, c@, track_count as int, 0),
    ensures
        scene@.is_matching(as_matching(r.0@)),
        r.0.len() == track_count,
        r.1.len() == detection_count,
        forall|t: int| 0 <= t < r.0.len() && (#[trigger] r.0[t]) is Some ==> r.0[t]->0
            < detection_count,
        forall|d: int| #![trigger r.1[d]]
            0 <= d < r.1.len() ==> r.1[d] == is_matched(as_matching(r.0@), d),
{
    let mut m: Vec<Option<usize>> = Vec::new();
    while m.len() < track_count
        invariant
            m.len() <= track_count,
            forall|t: int| 0 <= t < m.len() ==> (#[trigger] m[t]) is None,
        decreases track_count - m.len(),
    {
        m.push(None);
    }
    let mut taken: Vec<bool> = Vec::new();
    while taken.len() < detection_count
        invariant
            taken.len() <= detection_count,
            forall|d: int| 0 <= d < taken.len() ==> !(#[trigger] taken[d]),
        decreases detection_count - taken.len(),
    {
        taken.push(false);
    }
    let mut i: usize = 0;
    while i < c.len()
        invariant
            i <= c.len(),
            sound(scene@, c@),
            ordered(scene@, c@),
            greedy_to(scene@, c@, i as int, m@, taken@),
        decreases c.len() - i,
    {
        let t: usize = c[i].1;
        let d: usize = c[i].2;
        assert(scene@.may_pair(t as int, d as int));
        let ghost m0 = m@;
        let ghost w0 = as_matching(m0);
        let ghost taken0 = taken@;
        if m[t].is_none() && !taken[d] {
            m.set(t, Some(d));
            taken.set(d, true);
            proof {
                let w = as_matching(m@);
                assert forall|j: int| #![trigger c@[j]] 0 <= j < i + 1 implies w[c@[j].1 as int]
                    == Some(c@[j].2 as int) || scene@.loses(w, c@[j].1 as int, c@[j].2 as int) by {
                    if j < i {
                        let tj = c@[j].1 as int;
                        let dj = c@[j].2 as int;
                        if w0[tj] == Some(dj) {
                            assert(tj != t);
                        } else {
                            assert(scene@.loses(w0, tj, dj));
                            if w0[tj] is Some && scene@.before(tj, w0[tj]->0, tj, dj) {
                                assert(tj != t);
                            } else {
                                let t2 = choose|t2: int| #![trigger w0[t2]]
                                    0 <= t2 < w0.len() && w0[t2] == Some(dj) && scene@.before(
                                        t2,
                                        dj,
                                        tj,
                                        dj,
                                    );
                                assert(t2 != t);
                                assert(w[t2] == w0[t2]);
                            }
                        }
                    }
                }
                assert forall|e: int| #![trigger taken@[e]]
                    0 <= e < taken@.len() && taken@[e] implies exists|t: int| #![trigger m@[t]]
                    0 <= t < m@.len() && m@[t] is Some && m@[t]->0 == e by {
                    if e == d {
                        assert(m@[t as int] == Some(d));
                    } else {
                        assert(taken0[e]);
                        let u = choose|u: int| #![trigger m0[u]]
                            0 <= u < m0.len() && m0[u] is Some && m0[u]->0 == e;
                        assert(m@[u] == m0[u]);
                    }
                }
                assert forall|u: int| #![trigger m@[u]]
                    0 <= u < m@.len() && m@[u] is Some implies m@[u]->0 < taken@.len()
                    && taken@[m@[u]->0 as int] && scene@.may_pair(u, m@[u]->0 as int) && exists|
                    j: int,
                | #![trigger c@[j]]
                    0 <= j < i + 1 && c@[j].1 == u && c@[j].2 == m@[u]->0 by {
                    if u == t {
                        assert(c@[i as int].1 == u && c@[i as int].2 == m@[u]->0);
                    } else {
                        assert(m@[u] == m0[u]);
                        let j = choose|j: int| #![trigger c@[j]]
                            0 <= j < i && c@[j].1 == u && c@[j].2 == m0[u]->0;
                        assert(c@[j].1 == u);
                    }
                }
                assert forall|t1: int, t2: int| #![trigger m@[t1], m@[t2]]
                    0 <= t1 < t2 < m@.len() && m@[t1] is Some && m@[t2] is Some implies m@[t1]->0
                    != m@[t2]->0 by {
                    if t1 != t {
                        assert(m@[t1] == m0[t1]);
                    }
                    if t2 != t {
                        assert(m@[t2] == m0[t2]);
                    }
                }
            }
        } else {
            proof {
                // An earlier candidate holds the track or the detection.
                let w = as_matching(m@);
                if w[t as int] != Some(d as int) {
                    if m@[t as int] is Some {
                        let d2 = m@[t as int]->0;
                        let j = choose|j: int| #![trigger c@[j]]
                            0 <= j < i && c@[j].1 == t && c@[j].2 == d2;
                        assert(scene@.before(
                            c@[j].1 as int,
                            c@[j].2 as int,
                            c@[i as int].1 as int,
                            c@[i as int].2 as int,
                        ));
                        assert(w[t as int] == Some(d2 as int));
                    } else {
                        let u = choose|u: int| #![trigger m@[u]]
                            0 <= u < m@.len() && m@[u] is Some && m@[u]->0 == d;
                        let j = choose|j: int| #![trigger c@[j]]
                            0 <= j < i && c@[j].1 == u && c@[j].2 == m@[u]->0;
                        assert(scene@.before(
                            c@[j].1 as int,
                            c@[j].2 as int,
                            c@[i as int].1 as int,
                            c@[i as int].2 as int,
                        ));
                        assert(w[u] == Some(d as int));
                    }
                    assert(scene@.loses(w, t as int, d as int));
                }
            }
        }
        i = i + 1;
    }
    proof {
        let w = as_matching(m@);
        assert forall|t: int, d: int|
            #[trigger] scene@.may_pair(t, d) && w[t] != Some(d) implies scene@.loses(w, t, d) by {
            assert(listed(c@, t, d));
            let j = choose|j: int| #![trigger c@[j]] 0 <= j < c@.len() && c@[j].1 == t && c@[j].2
                == d;
            assert(c@[j].1 == t);
        }
        assert forall|d: int| #![trigger taken@[d]] 0 <= d < taken@.len() implies taken@[d]
            == is_matched(w, d) by {
            if taken@[d] {
                let u = choose|u: int| #![trigger m@[u]]
                    0 <= u < m@.len() && m@[u] is Some && m@[u]->0 == d;
                assert(w[u] == Some(d));
            } else if is_matched(w, d) {
                let u = choose|u: int| #![trigger w[u]] 0 <= u < w.len() && w[u] == Some(d);
                assert(m@[u] is Some && m@[u]->0 == d);
            }
        }
    }
    (m, taken)
}

/// Some track has taken detection `d`.
pub open spec fn is_matched(m: Seq<Option<int>>, d: int) -> bool {
    exists|t: int| #![trigger m[t]] 0 <= t < m.len() && m[t] == Some(d)
}

// --- One frame ---

pub open spec fn one_more(n: u32) -> u32 {
    if n == u32::MAX {
        n
    } else {
        (n + 1) as u32
    }
}

/// A track that took detection `d`: new geometry and capture times, the same
/// identity, and the class once recognition has been attempted.
pub open spec fn refreshed(t: TrackedObject, d: DetectedObject) -> TrackedObject {
    TrackedObject {
        last_rect: d.rect,
        center: center_of(d.rect),
        missed_frames: 0,
        frames_seen: one_more(t.frames_seen),
        detected: DetectedObject {
            id: t.id,
            class: if t.classified { t.detected.class } else { d.class },
            ..d
        },
        ..t
    }
}

/// A track that went unmatched: it drifts with the belt.
pub open spec fn aged(t: TrackedObject, shift: Float32) -> TrackedObject {
    TrackedObject {
        center: predicted(t, shift),
        missed_frames: (t.missed_frames + 1) as u32,
        ..t
    }
}

impl Scene {
    /// Every track after the matching `m`.
    pub open spec fn moved(self, m: Seq<Option<int>>) -> Seq<TrackedObject> {
        Seq::new(
            self.tracks.len(),
            |t: int|
                match m[t] {
                    Some(d) => refreshed(self.tracks[t], self.detections[d]),
                    None => aged(self.tracks[t], self.shift),
                },
        )
    }
}

/// A track that is still followed.
pub open spec fn followed(tuning: Tuning) -> spec_fn(TrackedObject) -> bool {
    |t: TrackedObject| t.missed_frames <= tuning.max_missed_frames
}

/// A track that is given up after it was reported.
pub open spec fn given_up(tuning: Tuning) -> spec_fn(TrackedObject) -> bool {
    |t: TrackedObject| t.missed_frames > tuning.max_missed_frames && t.reported
}

/// What is remembered of a track that is given up.
pub open spec fn departed(tuning: Tuning, t: TrackedObject) -> Departed {
    Departed { center: t.center, area: area_of(t.last_rect), ttl: tuning.ghost_frames }
}

/// The ghosts one frame later: drifted, the expired ones forgotten.
pub open spec fn drifted(ghosts: Seq<Departed>, shift: Float32) -> Seq<Departed> {
    ghosts.map_values(|g: Departed| carried(g, shift)).filter(|g: Departed| g.ttl > 0)
}

pub open spec fn carried(g: Departed, shift: Float32) -> Departed {
    Departed {
        center: (g.center.0, g.center.1.sum(shift)),
        ttl: if g.ttl == 0 { 0 } else { (g.ttl - 1) as u32 },
        ..g
    }
}

/// A detection is a fragment of an object that was seen in this frame.
pub open spec fn is_fragment(tuning: Tuning, tracks: Seq<TrackedObject>, r: Rect) -> bool {
    exists|i: int| #![trigger tracks[i]] 0 <= i < tracks.len() && fragment_of(tuning, tracks[i], r)
}

#[verifier::opaque]
pub open spec fn fragment_of(tuning: Tuning, t: TrackedObject, r: Rect) -> bool {
    t.missed_frames == 0 && tuning.min_birth_overlap.at_most(overlap(r, t.last_rect))
}

/// A detection may be an object that was picked before and lost from view.
#[verifier::opaque]
pub open spec fn haunted_by(tuning: Tuning, g: Departed, r: Rect) -> bool {
    &&& distance(center_of(r), g.center).at_most(tuning.max_match_dist_px)
    &&& similar_areas(g.area, area_of(r), tuning.max_area_ratio)
}

/// Ghost `i` is the first that fits.
pub open spec fn is_first_ghost(
    tuning: Tuning,
    ghosts: Seq<Departed>,
    r: Rect,
    i: int,
) -> bool {
    &&& 0 <= i < ghosts.len()
    &&& haunted_by(tuning, ghosts[i], r)
    &&& forall|j: int| #![trigger ghosts[j]] 0 <= j < i ==> !haunted_by(tuning, ghosts[j], r)
}

pub open spec fn first_ghost(tuning: Tuning, ghosts: Seq<Departed>, r: Rect) -> Option<int> {
    if exists|i: int| is_first_ghost(tuning, ghosts, r, i) {
        Some(choose|i: int| is_first_ghost(tuning, ghosts, r, i))
    } else {
        None
    }
}

/// `s` without element `i`, the last one put in its place.
pub open spec fn swap_removed<A>(s: Seq<A>, i: int) -> Seq<A> {
    s.update(i, s.last()).drop_last()
}

/// The track of a detection that belongs to no other.
pub open spec fn newborn(id: u64, d: DetectedObject, reported: bool) -> TrackedObject {
    TrackedObject {
        id,
        last_rect: d.rect,
        center: center_of(d.rect),
        missed_frames: 0,
        frames_seen: 1,
        reported,
        classified: false,
        detected: DetectedObject { id, ..d },
    }
}

impl TrackerState {
    /// The state after an unmatched detection: unchanged where it is a
    /// fragment, else with a new track, reported already where a ghost fits.
    pub open spec fn born(self, tuning: Tuning, d: DetectedObject) -> TrackerState {
        if is_fragment(tuning, self.tracks, d.rect) {
            self
        } else {
            let g = first_ghost(tuning, self.ghosts, d.rect);
            TrackerState {
                next_id: self.next_id + 1,
                tracks: self.tracks.push(newborn(self.next_id as u64, d, g is Some)),
                ghosts: match g {
                    Some(i) => swap_removed(self.ghosts, i),
                    None => self.ghosts,
                },
            }
        }
    }

    /// The state after the first `n` detections, those that were matched
    /// left out.
    pub open spec fn births(
        self,
        tuning: Tuning,
        detections: Seq<DetectedObject>,
        m: Seq<Option<int>>,
        n: int,
    ) -> TrackerState
        decreases n,
    {
        if n <= 0 {
            self
        } else {
            let s = self.births(tuning, detections, m, n - 1);
            if is_matched(m, n - 1) {
                s
            } else {
                s.born(tuning, detections[n - 1])
            }
        }
    }

    pub open spec fn scene(
        self,
        tuning: Tuning,
        detections: Seq<DetectedObject>,
        shift: Float32,
    ) -> Scene {
        Scene { tuning, tracks: self.tracks, detections, shift }
    }

    /// The state once the tracks have moved, before any birth.
    pub open spec fn settled(
        self,
        tuning: Tuning,
        detections: Seq<DetectedObject>,
        shift: Float32,
        m: Seq<Option<int>>,
    ) -> TrackerState {
        let moved = self.scene(tuning, detections, shift).moved(m);
        TrackerState {
            next_id: self.next_id,
            tracks: moved.filter(followed(tuning)),
            ghosts: drifted(self.ghosts, shift) + moved.filter(given_up(tuning)).map_values(
                |t: TrackedObject| departed(tuning, t),
            ),
        }
    }

    /// The state after one frame.
    pub open spec fn after_frame(
        self,
        tuning: Tuning,
        detections: Seq<DetectedObject>,
        shift: Float32,
    ) -> TrackerState {
        let m = self.scene(tuning, detections, shift).matching();
        self.settled(tuning, detections, shift, m).births(
            tuning,
            detections,
            m,
            detections.len() as int,
        )
    }

    /// Ids are given out in rising order from one, and every track has been
    /// seen and is still followed.
    pub open spec fn valid(self, tuning: Tuning) -> bool {
        &&& self.next_id >= 1
        &&& forall|i: int| #![trigger self.tracks[i]]
            0 <= i < self.tracks.len() ==> {
                &&& 1 <= self.tracks[i].id < self.next_id
                &&& self.tracks[i].detected.id == self.tracks[i].id
                &&& self.tracks[i].missed_frames <= tuning.max_missed_frames
                &&& self.tracks[i].frames_seen >= 1
            }
        &&& forall|i: int, j: int| #![trigger self.tracks[i], self.tracks[j]]
            0 <= i < j < self.tracks.len() ==> self.tracks[i].id < self.tracks[j].id
    }
}

impl View for Tracker {
    type V = TrackerState;

    open spec fn view(&self) -> TrackerState {
        TrackerState {
            next_id: self.next_id as int,
            tracks: self.tracks@,
            ghosts: self.ghosts@,
        }
    }
}

pub open spec fn default_tuning() -> Tuning {
    Tuning {
        max_match_dist_px: Float32::nearest(60, 1),
        max_area_ratio: Float32::nearest(3, 1),
        min_birth_overlap: Float32::nearest(1, 2),
        ghost_frames: 30,
        max_missed_frames: 5,
    }
}

impl Tracker {
    pub open spec fn wf(self) -> bool {
        self.tuning.max_missed_frames < u32::MAX && self@.valid(self.tuning)
    }

    pub fn new() -> (r: Tracker)
        ensures
            r.wf(),
            r.tuning == default_tuning(),
            r@ == (TrackerState { next_id: 1, tracks: Seq::empty(), ghosts: Seq::empty() }),
    {
        let r = Tracker {
            next_id: 1,
            tracks: Vec::new(),
            ghosts: Vec::new(),
            tuning: Tuning {
                max_match_dist_px: Float32::of(60),
                max_area_ratio: Float32::of(3),
                min_birth_overlap: Float32::ratio(1, 2),
                ghost_frames: 30,
                max_missed_frames: 5,
            },
        };
        assert(r@.tracks =~= Seq::empty());
        assert(r@.ghosts =~= Seq::empty());
        r
    }

    /// Drifts the ghosts with the belt and forgets the expired ones.
    fn age_ghosts(&mut self, shift: Float32)
        ensures
            final(self).ghosts@ == drifted(old(self).ghosts@, shift),
            final(self).tracks == old(self).tracks,
            final(self).next_id == old(self).next_id,
            final(self).tuning == old(self).tuning,
    {
        let mut kept: Vec<Departed> = Vec::new();
        let mut i: usize = 0;
        let ghost all = self.ghosts@.map_values(|g: Departed| carried(g, shift));
        let ghost alive = |g: Departed| g.ttl > 0;
        assert(all.take(0).filter(alive) =~= Seq::empty());
        while i < self.ghosts.len()
            invariant
                i <= self.ghosts.len(),
                *self == *old(self),
                all == self.ghosts@.map_values(|g: Departed| carried(g, shift)),
                alive == (|g: Departed| g.ttl > 0),
                kept@ == all.take(i as int).filter(alive),
            decreases self.ghosts.len() - i,
        {
            let g = self.ghosts[i];
            let moved = Departed {
                center: (g.center.0, g.center.1.plus(shift)),
                area: g.area,
                ttl: if g.ttl == 0 {
                    0
                } else {
                    g.ttl - 1
                },
            };
            proof {
                assert(moved == all[i as int]);
                assert(all.take(i + 1).drop_last() =~= all.take(i as int));
                assert(all.take(i + 1).last() == moved);
                reveal(Seq::filter);
            }
            if moved.ttl > 0 {
                kept.push(moved);
            }
            i = i + 1;
        }
        assert(all.take(i as int) =~= all);
        self.ghosts = kept;
    }

    /// Moves every track by the matching and gives up those missed too long.
    fn settle(
        &mut self,
        detections: &Vec<DetectedObject>,
        shift: Float32,
        m: &Vec<Option<usize>>,
    )
        requires
            m.len() == old(self).tracks.len(),
            old(self).tuning.max_missed_frames < u32::MAX,
            forall|i: int| #![trigger old(self).tracks[i]]
                0 <= i < old(self).tracks.len() ==> old(self).tracks[i].missed_frames <= old(
                    self,
                ).tuning.max_missed_frames,
            forall|t: int| 0 <= t < m.len() && (#[trigger] m[t]) is Some ==> m[t]->0
                < detections.len(),
        ensures
            final(self)@ == old(self)@.settled(
                old(self).tuning,
                detections@,
                shift,
                as_matching(m@),
            ),
            final(self).tuning == old(self).tuning,
    {
        let ghost start = *self;
        let ghost moved = start@.scene(self.tuning, detections@, shift).moved(as_matching(m@));
        let ghost tuning = self.tuning;
        let ghost keep = followed(tuning);
        let ghost drop = given_up(tuning);
        let ghost remember = |t: TrackedObject| departed(tuning, t);
        let ghost before = drifted(start.ghosts@, shift);
        self.age_ghosts(shift);
        let count: usize = self.tracks.len();
        let mut kept: Vec<TrackedObject> = Vec::new();
        let mut i: usize = 0;
        proof {
            reveal(Seq::filter);
            assert(moved.take(0).filter(keep) =~= Seq::empty());
            assert(before + moved.take(0).filter(drop).map_values(remember) =~= before);
            assert(start.tracks@.skip(0) =~= start.tracks@);
        }
        while i < count
            invariant
                i <= count,
                count == start.tracks.len(),
                m.len() == count,
                self.tuning == tuning,
                start.tuning == tuning,
                self.next_id == start.next_id,
                tuning.max_missed_frames < u32::MAX,
                keep == followed(tuning),
                drop == given_up(tuning),
                remember == (|t: TrackedObject| departed(tuning, t)),
                self.tracks@ == start.tracks@.skip(i as int),
                moved == start@.scene(tuning, detections@, shift).moved(as_matching(m@)),
                forall|i: int| #![trigger start.tracks[i]]
                    0 <= i < start.tracks.len() ==> start.tracks[i].missed_frames
                        <= tuning.max_missed_frames,
                forall|t: int| 0 <= t < m.len() && (#[trigger] m[t]) is Some ==> m[t]->0
                    < detections.len(),
                kept@ == moved.take(i as int).filter(keep),
                self.ghosts@ == before + moved.take(i as int).filter(drop).map_values(remember),
            decreases count - i,
        {
            let mut t = self.tracks.remove(0);
            assert(t == start.tracks[i as int]);
            match m[i] {
                Some(d) => {
                    let det = &detections[d];
                    t.last_rect = det.rect;
                    t.center = rect_center(&det.rect);
                    t.missed_frames = 0;
                    t.frames_seen = t.frames_seen.saturating_add(1);
                    let class = if t.classified {
                        clone_class(&t.detected.class)
                    } else {
                        clone_class(&det.class)
                    };
                    t.detected = DetectedObject {
                        id: t.id,
                        rect: det.rect,
                        world_pos: det.world_pos,
                        class,
                        confidence: det.confidence,
                        timestamp: det.timestamp,
                        seen_at: det.seen_at,
                    };
                },
                None => {
                    t.missed_frames = t.missed_frames + 1;
                    t.center = (t.center.0, t.center.1.plus(shift));
                },
            }
            proof {
                assert(t == moved[i as int]);
                assert(moved.take(i + 1).drop_last() =~= moved.take(i as int));
                assert(moved.take(i + 1).last() == t);
                assert(start.tracks@.skip(i as int).remove(0) =~= start.tracks@.skip(i + 1));
            }
            let ghost ghosts0 = self.ghosts@;
            let ghost gone = moved.take(i as int).filter(drop);
            if t.missed_frames <= self.tuning.max_missed_frames {
                kept.push(t);
            } else if t.reported {
                let g = Departed {
                    center: t.center,
                    area: rect_area(&t.last_rect),
                    ttl: self.tuning.ghost_frames,
                };
                self.ghosts.push(g);
                assert(gone.push(t).map_values(remember) =~= gone.map_values(remember).push(g));
                assert(before + gone.push(t).map_values(remember) =~= ghosts0.push(g));
            }
            proof {
                reveal(Seq::filter);
            }
            i = i + 1;
        }
        assert(moved.take(i as int) =~= moved);
        self.tracks = kept;
    }

    /// Starts a track for an unmatched detection.
    fn bear(&mut self, d: &DetectedObject)
        requires
            old(self).next_id < u64::MAX,
        ensures
            final(self)@ == old(self)@.born(old(self).tuning, *d),
            final(self).tuning == old(self).tuning,
    {
        // A threshold split yields a second blob heavily overlapping the
        // first (which matched the track): suppress it so it can't become a
        // duplicate pick.
        let mut i: usize = 0;
        while i < self.tracks.len()
            invariant
                i <= self.tracks.len(),
                *self == *old(self),
                forall|j: int| #![trigger self.tracks@[j]]
                    0 <= j < i ==> !fragment_of(self.tuning, self.tracks@[j], d.rect),
            decreases self.tracks.len() - i,
        {
            proof {
                reveal(fragment_of);
            }
            if self.tracks[i].missed_frames == 0 && self.tuning.min_birth_overlap.le(
                overlap_coeff(&d.rect, &self.tracks[i].last_rect),
            ) {
                assert(fragment_of(self.tuning, self.tracks@[i as int], d.rect));
                return;
            }
            i = i + 1;
        }
        // A detection matching a ghost is the same object reappearing after a
        // long occlusion: track it, but as already reported.
        let center = rect_center(&d.rect);
        let area = rect_area(&d.rect);
        let mut g: usize = 0;
        while g < self.ghosts.len() && !(gap(center, self.ghosts[g].center).le(
            self.tuning.max_match_dist_px,
        ) && areas_compatible(self.ghosts[g].area, area, self.tuning.max_area_ratio))
            invariant
                g <= self.ghosts.len(),
                *self == *old(self),
                center == center_of(d.rect),
                area == area_of(d.rect),
                forall|j: int| #![trigger self.ghosts@[j]]
                    0 <= j < g ==> !haunted_by(self.tuning, self.ghosts@[j], d.rect),
            decreases self.ghosts.len() - g,
        {
            proof {
                reveal(haunted_by);
            }
            g = g + 1;
        }
        let reported: bool = g < self.ghosts.len();
        proof {
            reveal(haunted_by);
            if reported {
                assert(is_first_ghost(self.tuning, self.ghosts@, d.rect, g as int));
                let c = choose|i: int| is_first_ghost(self.tuning, self.ghosts@, d.rect, i);
                assert(is_first_ghost(self.tuning, self.ghosts@, d.rect, c));
                if c < g {
                    assert(!haunted_by(self.tuning, self.ghosts@[c], d.rect));
                }
                if g < c {
                    assert(!haunted_by(self.tuning, self.ghosts@[g as int], d.rect));
                }
            } else {
                assert forall|i: int| !is_first_ghost(self.tuning, self.ghosts@, d.rect, i) by {
                    if 0 <= i < self.ghosts@.len() {
                        assert(!haunted_by(self.tuning, self.ghosts@[i], d.rect));
                    }
                }
            }
        }
        if reported {
            self.ghosts.swap_remove(g);
        }
        let id: u64 = self.next_id;
        self.next_id = id + 1;
        let detected = DetectedObject {
            id,
            rect: d.rect,
            world_pos: d.world_pos,
            class: clone_class(&d.class),
            confidence: d.confidence,
            timestamp: d.timestamp,
            seen_at: d.seen_at,
        };
        self.tracks.push(
            TrackedObject {
                id,
                last_rect: d.rect,
                center,
                missed_frames: 0,
                frames_seen: 1,
                reported,
                classified: false,
                detected,
            },
        );
        assert(self@.ghosts =~= old(self)@.born(old(self).tuning, *d).ghosts);
        assert(self@.tracks =~= old(self)@.born(old(self).tuning, *d).tracks);
    }

    /// Ingest one frame's detections. `belt_shift_px` is how far the belt
    /// moved objects along pixel +y since the previous frame (signed).
    pub fn update(&mut self, detections: Vec<DetectedObject>, belt_shift_px: Float32)
        requires
            old(self).wf(),
            old(self).next_id + detections.len() <= u64::MAX,
        ensures
            final(self).wf(),
            final(self).tuning == old(self).tuning,
            final(self)@ == old(self)@.after_frame(
                old(self).tuning,
                detections@,
                belt_shift_px,
            ),
            old(self)@.scene(old(self).tuning, detections@, belt_shift_px).is_matching(
                old(self)@.scene(old(self).tuning, detections@, belt_shift_px).matching(),
            ),
    {
        let ghost start = *self;
        let ghost scene = start@.scene(self.tuning, detections@, belt_shift_px);
        let found = candidates(self.tuning, &self.tracks, &detections, belt_shift_px);
        let (m, taken) = assign(&found, self.tracks.len(), detections.len(), Ghost(scene));
        let ghost w = as_matching(m@);
        proof {
            scene.law_one_matching(w, scene.matching());
        }
        self.settle(&detections, belt_shift_px, &m);
        let ghost settled = self@;
        let ghost tuning = start.tuning;
        proof {
            lemma_settled_valid(start@, tuning, detections@, belt_shift_px, w);
        }
        let mut i: usize = 0;
        while i < detections.len()
            invariant
                i <= detections.len(),
                taken.len() == detections.len(),
                self.tuning == tuning,
                tuning.max_missed_frames < u32::MAX,
                self@ == settled.births(tuning, detections@, w, i as int),
                self@.valid(tuning),
                self.next_id <= start.next_id + i,
                start.next_id + detections.len() <= u64::MAX,
                forall|d: int| #![trigger taken[d]]
                    0 <= d < taken.len() ==> taken[d] == is_matched(w, d),
            decreases detections.len() - i,
        {
            let ghost before = self@;
            if !taken[i] {
                self.bear(&detections[i]);
                proof {
                    lemma_born_valid(before, tuning, detections@[i as int]);
                }
            }
            i = i + 1;
        }
    }

    /// Bounding box and class name of every track matched in the current
    /// frame, for the live overlay. The class is `None` until the object is
    /// recognised.
    pub fn current_overlays(&self) -> (r: Vec<(Rect, Option<ClassName>)>)
        ensures
            r@ == overlays(self.tracks@),
    {
        let mut r: Vec<(Rect, Option<ClassName>)> = Vec::new();
        let mut i: usize = 0;
        proof {
            reveal(Seq::filter);
            assert(overlays(self.tracks@.take(0)) =~= Seq::empty());
        }
        while i < self.tracks.len()
            invariant
                i <= self.tracks.len(),
                r@ == overlays(self.tracks@.take(i as int)),
            decreases self.tracks.len() - i,
        {
            let t = &self.tracks[i];
            proof {
                reveal(Seq::filter);
                assert(self.tracks@.take(i + 1).drop_last() =~= self.tracks@.take(i as int));
                let seen = self.tracks@.take(i as int).filter(visible());
                assert(seen.push(*t).map_values(|t: TrackedObject| (t.last_rect, t.detected.class))
                    =~= seen.map_values(|t: TrackedObject| (t.last_rect, t.detected.class)).push(
                    (t.last_rect, t.detected.class),
                ));
            }
            if t.missed_frames == 0 {
                r.push((t.last_rect, clone_class(&t.detected.class)));
            }
            i = i + 1;
        }
        assert(self.tracks@.take(i as int) =~= self.tracks@);
        r
    }

    /// Return every track detected in at least `min_seen` frames that has
    /// not been reported yet, marking it reported.
    pub fn take_ready(&mut self, min_seen: u32) -> (r: Vec<DetectedObject>)
        requires
            old(self).wf(),
        ensures
            final(self).wf(),
            final(self).tuning == old(self).tuning,
            final(self)@ == old(self)@.after_report(min_seen),
            r@ == old(self)@.ready(min_seen),
    {
        let mut r: Vec<DetectedObject> = Vec::new();
        let ghost start = self.tracks@;
        let ghost is_ready = ready_at(min_seen);
        let ghost detected = |t: TrackedObject| t.detected;
        let mut i: usize = 0;
        proof {
            reveal(Seq::filter);
            assert(start.take(0).filter(is_ready).map_values(detected) =~= Seq::empty());
        }
        while i < self.tracks.len()
            invariant
                i <= self.tracks.len(),
                self.tracks.len() == start.len(),
                self.next_id == old(self).next_id,
                self.ghosts == old(self).ghosts,
                self.tuning == old(self).tuning,
                is_ready == ready_at(min_seen),
                detected == (|t: TrackedObject| t.detected),
                forall|j: int| #![trigger self.tracks@[j]]
                    0 <= j < i ==> self.tracks@[j] == reported_at(start[j], min_seen),
                forall|j: int| #![trigger self.tracks@[j]]
                    i <= j < start.len() ==> self.tracks@[j] == start[j],
                r@ == start.take(i as int).filter(is_ready).map_values(detected),
            decreases self.tracks.len() - i,
        {
            proof {
                assert(self.tracks@[i as int] == start[i as int]);
                reveal(Seq::filter);
                assert(start.take(i + 1).drop_last() =~= start.take(i as int));
                let seen = start.take(i as int).filter(is_ready);
                assert(seen.push(start[i as int]).map_values(detected) =~= seen.map_values(
                    detected,
                ).push(start[i as int].detected));
            }
            if !self.tracks[i].reported && self.tracks[i].frames_seen >= min_seen {
                r.push(self.tracks[i].detected.clone());
                self.tracks[i].reported = true;
            }
            i = i + 1;
        }
        assert(start.take(i as int) =~= start);
        assert(self@.tracks =~= old(self)@.after_report(min_seen).tracks);
        r
    }

    /// Recognise each visible track that has reached `min_seen` frames and
    /// has not been classified yet, caching the class on the track.
    /// `classify(rect)` returns the recognised class name, or `None`.
    pub fn classify_ready_tracks<F: Fn(&Rect) -> Option<ClassName>>(
        &mut self,
        min_seen: u32,
        classify: F,
    )
        requires
            old(self).wf(),
            forall|r: Rect| call_requires(classify, (&r,)),
        ensures
            final(self).wf(),
            final(self).tuning == old(self).tuning,
            final(self)@ == old(self)@.after_classes(min_seen, final(self)@.classes()),
            forall|i: int| #![trigger final(self).tracks@[i]]
                0 <= i < old(self).tracks.len() && awaits_class(old(self).tracks@[i], min_seen)
                    ==> call_ensures(
                    classify,
                    (&old(self).tracks@[i].last_rect,),
                    final(self)@.classes()[i],
                ),
    {
        let ghost start = self.tracks@;
        let mut i: usize = 0;
        while i < self.tracks.len()
            invariant
                i <= self.tracks.len(),
                self.tracks.len() == start.len(),
                self.next_id == old(self).next_id,
                self.ghosts == old(self).ghosts,
                self.tuning == old(self).tuning,
                forall|r: Rect| call_requires(classify, (&r,)),
                forall|j: int| #![trigger self.tracks@[j]]
                    0 <= j < i ==> {
                        let t = start[j];
                        let u = self.tracks@[j];
                        if awaits_class(t, min_seen) {
                            &&& u == classified_as(t, u.detected.class)
                            &&& call_ensures(classify, (&t.last_rect,), u.detected.class)
                        } else {
                            u == t
                        }
                    },
                forall|j: int| #![trigger self.tracks@[j]]
                    i <= j < start.len() ==> self.tracks@[j] == start[j],
            decreases self.tracks.len() - i,
        {
            assert(self.tracks@[i as int] == start[i as int]);
            if !self.tracks[i].classified && self.tracks[i].missed_frames == 0
                && self.tracks[i].frames_seen >= min_seen {
                let rect = self.tracks[i].last_rect;
                let class = classify(&rect);
                self.tracks[i].detected.class = class;
                self.tracks[i].classified = true;
            }
            i = i + 1;
        }
        assert(self@.tracks =~= old(self)@.after_classes(min_seen, self@.classes()).tracks);
    }
}

/// A track seen in the current frame.
pub open spec fn visible() -> spec_fn(TrackedObject) -> bool {
    |t: TrackedObject| t.missed_frames == 0
}

pub open spec fn overlays(tracks: Seq<TrackedObject>) -> Seq<(Rect, Option<ClassName>)> {
    tracks.filter(visible()).map_values(|t: TrackedObject| (t.last_rect, t.detected.class))
}

/// A track seen often enough and not reported yet.
pub open spec fn ready_at(min_seen: u32) -> spec_fn(TrackedObject) -> bool {
    |t: TrackedObject| !t.reported && t.frames_seen >= min_seen
}

pub open spec fn reported_at(t: TrackedObject, min_seen: u32) -> TrackedObject {
    if ready_at(min_seen)(t) {
        TrackedObject { reported: true, ..t }
    } else {
        t
    }
}

/// A visible track seen often enough, not classified yet.
pub open spec fn awaits_class(t: TrackedObject, min_seen: u32) -> bool {
    !t.classified && t.missed_frames == 0 && t.frames_seen >= min_seen
}

pub open spec fn classified_as(t: TrackedObject, class: Option<ClassName>) -> TrackedObject {
    TrackedObject { classified: true, detected: DetectedObject { class, ..t.detected }, ..t }
}

impl TrackerState {
    /// The class on every track.
    pub open spec fn classes(self) -> Seq<Option<ClassName>> {
        self.tracks.map_values(|t: TrackedObject| t.detected.class)
    }

    /// The state once recognition has answered for every track that was
    /// waiting for it.
    pub open spec fn after_classes(
        self,
        min_seen: u32,
        classes: Seq<Option<ClassName>>,
    ) -> TrackerState {
        TrackerState {
            tracks: Seq::new(
                self.tracks.len(),
                |i: int|
                    if awaits_class(self.tracks[i], min_seen) {
                        classified_as(self.tracks[i], classes[i])
                    } else {
                        self.tracks[i]
                    },
            ),
            ..self
        }
    }

    /// What `take_ready` hands out.
    pub open spec fn ready(self, min_seen: u32) -> Seq<DetectedObject> {
        self.tracks.filter(ready_at(min_seen)).map_values(|t: TrackedObject| t.detected)
    }

    /// The state after `take_ready`.
    pub open spec fn after_report(self, min_seen: u32) -> TrackerState {
        TrackerState {
            tracks: self.tracks.map_values(|t: TrackedObject| reported_at(t, min_seen)),
            ..self
        }
    }
}

pub proof fn lemma_born_valid(s: TrackerState, tuning: Tuning, d: DetectedObject)
    requires
        s.valid(tuning),
        s.next_id < u64::MAX,
    ensures
        s.born(tuning, d).valid(tuning),
{
    let b = s.born(tuning, d);
    assert forall|i: int| #![trigger b.tracks[i]] 0 <= i < b.tracks.len() implies {
        &&& 1 <= b.tracks[i].id < b.next_id
        &&& b.tracks[i].detected.id == b.tracks[i].id
        &&& b.tracks[i].missed_frames <= tuning.max_missed_frames
    } by {
        if i < s.tracks.len() {
            assert(b.tracks[i] == s.tracks[i]);
        }
    }
    assert forall|i: int, j: int| #![trigger b.tracks[i], b.tracks[j]]
        0 <= i < j < b.tracks.len() implies b.tracks[i].id < b.tracks[j].id by {
        assert(b.tracks[i] == s.tracks[i]);
        if j < s.tracks.len() {
            assert(b.tracks[j] == s.tracks[j]);
        }
    }
}

/// Filtering keeps the order of the ids.
pub proof fn lemma_filter_keeps_order(
    s: Seq<TrackedObject>,
    keep: spec_fn(TrackedObject) -> bool,
)
    requires
        forall|i: int, j: int| #![trigger s[i], s[j]] 0 <= i < j < s.len() ==> s[i].id < s[j].id,
    ensures
        forall|i: int, j: int| #![trigger s.filter(keep)[i], s.filter(keep)[j]]
            0 <= i < j < s.filter(keep).len() ==> s.filter(keep)[i].id < s.filter(keep)[j].id,
        forall|i: int| #![trigger s.filter(keep)[i]]
            0 <= i < s.filter(keep).len() ==> keep(s.filter(keep)[i]) && s.contains(
                s.filter(keep)[i],
            ),
    decreases s.len(),
{
    reveal(Seq::filter);
    if s.len() > 0 {
        let head = s.drop_last();
        lemma_filter_keeps_order(head, keep);
        let f = s.filter(keep);
        let g = head.filter(keep);
        assert forall|i: int| #![trigger f[i]] 0 <= i < f.len() implies keep(f[i]) && s.contains(
            f[i],
        ) by {
            if i < g.len() {
                assert(f[i] == g[i]);
                assert(head.contains(g[i]));
                let k = choose|k: int| 0 <= k < head.len() && head[k] == g[i];
                assert(s[k] == f[i]);
            } else {
                assert(f[i] == s[s.len() - 1]);
            }
        }
        assert forall|i: int, j: int| #![trigger f[i], f[j]]
            0 <= i < j < f.len() implies f[i].id < f[j].id by {
            assert(f[i] == g[i]);
            if j < g.len() {
                assert(f[j] == g[j]);
            } else {
                assert(f[j] == s.last());
                assert(head.contains(g[i]));
                let k = choose|k: int| 0 <= k < head.len() && head[k] == g[i];
                assert(s[k] == f[i]);
            }
        }
    }
}

pub proof fn lemma_settled_valid(
    s: TrackerState,
    tuning: Tuning,
    detections: Seq<DetectedObject>,
    shift: Float32,
    m: Seq<Option<int>>,
)
    requires
        s.valid(tuning),
    ensures
        s.settled(tuning, detections, shift, m).valid(tuning),
{
    let moved = s.scene(tuning, detections, shift).moved(m);
    let keep = followed(tuning);
    assert forall|i: int, j: int| #![trigger moved[i], moved[j]]
        0 <= i < j < moved.len() implies moved[i].id < moved[j].id by {
        assert(s.tracks[i].id < s.tracks[j].id);
    }
    lemma_filter_keeps_order(moved, keep);
    let kept = moved.filter(keep);
    assert forall|i: int| #![trigger kept[i]] 0 <= i < kept.len() implies {
        &&& 1 <= kept[i].id < s.next_id
        &&& kept[i].detected.id == kept[i].id
        &&& kept[i].missed_frames <= tuning.max_missed_frames
    } by {
        assert(moved.contains(kept[i]));
        let k = choose|k: int| 0 <= k < moved.len() && moved[k] == kept[i];
        assert(s.tracks[k].id == moved[k].id);
    }
}

} // verus!

//! What a configuration must keep to, rule by rule, and where each class of
//! parts goes.
use crate::app_config::{
    bin_place, drops_to, is_bin, is_fourcc, is_stray_bin, AppConfig, BinConfig, ConfigError,
    SortingConfig,
};
use crate::float::{Float32, Float64};
use crate::hardware::Position;
use crate::text::{trimmed, trimmed_end, trimmed_start, white_space};
use vstd::arithmetic::power2::pow2;
use vstd::prelude::*;

verus! {

/// When the rule is looked at, among the others.
pub open spec fn turn(e: ConfigError) -> int {
    match e {
        ConfigError::XBounds => 0,
        ConfigError::YBounds => 1,
        ConfigError::ZBounds => 2,
        ConfigError::PickHeight => 3,
        ConfigError::TravelHeight => 4,
        ConfigError::TravelNotAbovePick => 5,
        ConfigError::XEnvelope => 6,
        ConfigError::YEnvelope => 7,
        ConfigError::ZEnvelope => 8,
        ConfigError::RobotBaudRate => 9,
        ConfigError::FeedRate => 10,
        ConfigError::ConveyorBaudRate => 11,
        ConfigError::BeltSpeed => 12,
        ConfigError::DropPosition => 13,
        ConfigError::BinPosition(_) => 14,
        ConfigError::Resolution => 15,
        ConfigError::FrameRate => 16,
        ConfigError::Fourcc => 17,
        ConfigError::Scale => 18,
        ConfigError::Threshold => 19,
        ConfigError::AreaLimits => 20,
        ConfigError::AreaOrder => 21,
        ConfigError::LogDirectory => 22,
        ConfigError::LogLevel => 23,
    }
}

/// The box that the configured bounds span holds the point.
pub open spec fn reachable(c: AppConfig, p: Position) -> bool {
    &&& c.robot.x_min.at_most(p.x) && p.x.at_most(c.robot.x_max)
    &&& c.robot.y_min.at_most(p.y) && p.y.at_most(c.robot.y_max)
    &&& c.robot.z_min.at_most(p.z) && p.z.at_most(c.robot.z_max)
}

/// The text is blank: nothing but white space.
pub open spec fn blank(s: Seq<char>) -> bool {
    forall|i: int| #![trigger s[i]] 0 <= i < s.len() ==> white_space(s[i])
}

/// The configuration breaks this rule.
pub open spec fn breaks(c: AppConfig, level_parses: bool, e: ConfigError) -> bool {
    let zero = Float32::nearest(0, 1);
    let none = Float64::nearest(0, 1);
    let (low, high) = (Float32::nearest(-160, 1), Float32::nearest(160, 1));
    match e {
        ConfigError::XBounds => !c.robot.x_min.below(c.robot.x_max),
        ConfigError::YBounds => !c.robot.y_min.below(c.robot.y_max),
        ConfigError::ZBounds => !c.robot.z_min.below(c.robot.z_max),
        ConfigError::PickHeight => !c.robot.z_min.at_most(c.robot.z_pick)
            || !c.robot.z_pick.at_most(c.robot.z_max),
        ConfigError::TravelHeight => !c.robot.z_min.at_most(c.robot.z_travel)
            || !c.robot.z_travel.at_most(c.robot.z_max),
        ConfigError::TravelNotAbovePick => !c.robot.z_pick.below(c.robot.z_travel),
        ConfigError::XEnvelope => !low.at_most(c.robot.x_min) || !c.robot.x_max.at_most(high),
        ConfigError::YEnvelope => !low.at_most(c.robot.y_min) || !c.robot.y_max.at_most(high),
        ConfigError::ZEnvelope => !Float32::nearest(-200, 1).at_most(c.robot.z_min)
            || !c.robot.z_max.at_most(zero),
        ConfigError::RobotBaudRate => c.robot.baud_rate == 0,
        ConfigError::FeedRate => c.robot.feed_rate == 0,
        ConfigError::ConveyorBaudRate => c.conveyor.baud_rate == 0,
        ConfigError::BeltSpeed => !c.conveyor.speed_mm_s.finite(),
        ConfigError::DropPosition => !reachable(
            c,
            Position { x: c.sorting.drop_x, y: c.sorting.drop_y, z: c.sorting.drop_z },
        ),
        ConfigError::BinPosition(i) => {
            let bins = c.sorting.bins@;
            &&& i < bins.len()
            &&& !reachable(c, Position { x: bins[i as int].x, y: bins[i as int].y, z: bins[
                i as int].z })
            &&& forall|j: int| #![trigger bins[j]]
                0 <= j < i ==> reachable(
                    c,
                    Position { x: bins[j].x, y: bins[j].y, z: bins[j].z },
                )
        },
        ConfigError::Resolution => c.camera.width == 0 || c.camera.height == 0,
        ConfigError::FrameRate => c.camera.fps == 0,
        ConfigError::Fourcc => c.camera.fourcc matches Some(code) && (code@.len() != 4 || exists|
            i: int,
        |
            #![trigger code@[i]]
            0 <= i < code@.len() && code@[i] > '\u{7f}'),
        ConfigError::Scale => !c.vision.mm_per_px.finite() || !zero.below(c.vision.mm_per_px),
        ConfigError::Threshold => !none.at_most(c.vision.threshold)
            || !c.vision.threshold.at_most(Float64::nearest(255, 1)),
        ConfigError::AreaLimits => !c.vision.min_area.finite() || !c.vision.max_area.finite()
            || !none.at_most(c.vision.min_area),
        ConfigError::AreaOrder => !c.vision.min_area.below(c.vision.max_area),
        ConfigError::LogDirectory => blank(c.logging.directory@),
        ConfigError::LogLevel => !level_parses,
    }
}

proof fn lemma_blank(s: Seq<char>)
    ensures
        trimmed(s).len() == 0 <==> blank(s),
{
    lemma_start(s);
    lemma_end(trimmed_start(s));
}

/// Nothing is left of a blank text; of any other, a text whose first character
/// is not white space.
proof fn lemma_start(s: Seq<char>)
    ensures
        blank(s) ==> trimmed_start(s).len() == 0,
        !blank(s) ==> trimmed_start(s).len() > 0 && !white_space(trimmed_start(s)[0]),
    decreases s.len(),
{
    if s.len() > 0 && white_space(s[0]) {
        let rest = s.subrange(1, s.len() as int);
        lemma_start(rest);
        if blank(s) {
            assert forall|i: int| #![trigger rest[i]] 0 <= i < rest.len() implies white_space(
                rest[i],
            ) by {
                assert(white_space(s[i + 1]));
            }
        } else {
            let i = choose|i: int| #![trigger s[i]] 0 <= i < s.len() && !white_space(s[i]);
            assert(rest[i - 1] == s[i]);
        }
    }
}

proof fn lemma_end(s: Seq<char>)
    requires
        s.len() > 0 ==> !white_space(s[0]),
    ensures
        trimmed_end(s).len() == 0 <==> s.len() == 0,
    decreases s.len(),
{
    if s.len() > 1 && white_space(s.last()) {
        lemma_end(s.drop_last());
    }
}

proof fn lemma_fourcc(s: Seq<char>)
    ensures
        is_fourcc(s) <==> s.len() == 4 && forall|i: int|
            #![trigger s[i]]
            0 <= i < s.len() ==> s[i] <= '\u{7f}',
{
    assert forall|i: int| #![trigger s[i]] 0 <= i < s.len() implies '\0' <= s[i] by {
        lemma_lowest(s[i]);
    }
}

proof fn lemma_lowest(c: char)
    ensures
        '\0' <= c,
{
}

proof fn lemma_stray(c: AppConfig, i: int)
    requires
        is_stray_bin(c.robot.limits(), c.sorting.bins@, i),
    ensures
        breaks(c, true, ConfigError::BinPosition(i as usize)),
        i == i as usize,
        forall|k: int| is_stray_bin(c.robot.limits(), c.sorting.bins@, k) ==> k == i,
{
    let bins = c.sorting.bins@;
    let limits = c.robot.limits();
    assert(c.sorting.bins.len() == bins.len());
    assert forall|j: int| #![trigger bins[j]] 0 <= j < i implies reachable(
        c,
        Position { x: bins[j].x, y: bins[j].y, z: bins[j].z },
    ) by {
        assert(limits.holds(bins[j].place()));
    }
    assert forall|k: int| is_stray_bin(limits, bins, k) implies k == i by {
        if k < i {
            assert(limits.holds(bins[k].place()));
        }
        if i < k {
            assert(limits.holds(bins[i].place()));
        }
    }
}

proof fn lemma_stray_breaks(c: AppConfig, level_parses: bool, i: usize)
    requires
        breaks(c, level_parses, ConfigError::BinPosition(i)),
    ensures
        is_stray_bin(c.robot.limits(), c.sorting.bins@, i as int),
{
    let bins = c.sorting.bins@;
    let limits = c.robot.limits();
    assert forall|j: int| #![trigger bins[j]] 0 <= j < i implies limits.holds(
        bins[j].place(),
    ) by {}
}

proof fn lemma_accepted(c: AppConfig, level_parses: bool, e: ConfigError)
    requires
        c.outcome(level_parses) is Ok,
    ensures
        !breaks(c, level_parses, e),
{
    lemma_blank(c.logging.directory@);
    if c.camera.fourcc is Some {
        lemma_fourcc(c.camera.fourcc->0@);
    }
    if e is BinPosition && breaks(c, level_parses, e) {
        lemma_stray_breaks(c, level_parses, e->BinPosition_0);
    }
}

proof fn lemma_reported(c: AppConfig, level_parses: bool, e: ConfigError)
    requires
        c.outcome(level_parses) == Err::<(), ConfigError>(e),
    ensures
        breaks(c, level_parses, e),
{
    let bins = c.sorting.bins@;
    let limits = c.robot.limits();
    lemma_blank(c.logging.directory@);
    if c.camera.fourcc is Some {
        lemma_fourcc(c.camera.fourcc->0@);
    }
    if exists|i: int| is_stray_bin(limits, bins, i) {
        let i = choose|i: int| is_stray_bin(limits, bins, i);
        lemma_stray(c, i);
    }
}

proof fn lemma_kept_before(c: AppConfig, level_parses: bool, e: ConfigError, other: ConfigError)
    requires
        c.outcome(level_parses) == Err::<(), ConfigError>(e),
        turn(other) < turn(e),
    ensures
        !breaks(c, level_parses, other),
{
    lemma_blank(c.logging.directory@);
    if c.camera.fourcc is Some {
        lemma_fourcc(c.camera.fourcc->0@);
    }
    if other is BinPosition && breaks(c, level_parses, other) {
        lemma_stray_breaks(c, level_parses, other->BinPosition_0);
    }
}

/// A configuration is refused for the rule that it breaks and that is looked at
/// before every other that it breaks, and for no other.
pub proof fn law_first_broken_rule_is_reported(c: AppConfig, level_parses: bool, e: ConfigError)
    ensures
        c.outcome(level_parses) == Err::<(), ConfigError>(e) <==> {
            &&& breaks(c, level_parses, e)
            &&& forall|other: ConfigError| #[trigger]
                turn(other) < turn(e) ==> !breaks(c, level_parses, other)
        },
{
    if c.outcome(level_parses) == Err::<(), ConfigError>(e) {
        lemma_reported(c, level_parses, e);
        assert forall|other: ConfigError| #[trigger] turn(other) < turn(e) implies !breaks(
            c,
            level_parses,
            other,
        ) by {
            lemma_kept_before(c, level_parses, e, other);
        }
    } else if c.outcome(level_parses) is Ok {
        lemma_accepted(c, level_parses, e);
    } else {
        let first = c.outcome(level_parses)->Err_0;
        lemma_reported(c, level_parses, first);
        if turn(e) < turn(first) {
            lemma_kept_before(c, level_parses, first, e);
        } else if turn(e) == turn(first) && breaks(c, level_parses, e) {
            if e is BinPosition {
                lemma_stray_breaks(c, level_parses, e->BinPosition_0);
                lemma_stray_breaks(c, level_parses, first->BinPosition_0);
                lemma_stray(c, e->BinPosition_0 as int);
            }
            assert(e == first);
        }
    }
}

/// A configuration is taken where it breaks no rule, and only there.
pub proof fn law_valid_breaks_no_rule(c: AppConfig, level_parses: bool)
    ensures
        c.outcome(level_parses) is Ok <==> forall|e: ConfigError|
            !(#[trigger] breaks(c, level_parses, e)),
{
    if c.outcome(level_parses) is Ok {
        assert forall|e: ConfigError| !(#[trigger] breaks(c, level_parses, e)) by {
            lemma_accepted(c, level_parses, e);
        }
    } else {
        lemma_reported(c, level_parses, c.outcome(level_parses)->Err_0);
    }
}

/// A configuration that is taken, in numbers: the workspace lies within the
/// 160 millimetres around the centre and the 200 below the top, the arm picks
/// below the height at which it travels, both within the workspace, and so is
/// every bin; the picture has a scale, and the areas of a part are bounded.
pub proof fn law_valid_in_numbers(c: AppConfig, level_parses: bool, i: int)
    requires
        c.outcome(level_parses) is Ok,
    ensures
        ({
            let mm = pow2(149) as int;
            let one = pow2(1074) as int;
            let r = c.robot;
            &&& -160 * mm <= r.x_min.units() < r.x_max.units() <= 160 * mm
            &&& -160 * mm <= r.y_min.units() < r.y_max.units() <= 160 * mm
            &&& -200 * mm <= r.z_min.units() <= r.z_pick.units()
            &&& r.z_pick.units() < r.z_travel.units() <= r.z_max.units() <= 0
            &&& c.vision.mm_per_px.units() > 0
            &&& 0 <= c.vision.threshold.units() <= 255 * one
            &&& 0 <= c.vision.min_area.units() < c.vision.max_area.units()
            &&& 0 <= i < c.sorting.bins@.len() ==> {
                let b = c.sorting.bins@[i];
                &&& r.x_min.units() <= b.x.units() <= r.x_max.units()
                &&& r.y_min.units() <= b.y.units() <= r.y_max.units()
                &&& r.z_min.units() <= b.z.units() <= r.z_max.units()
            }
        }),
{
    let r = c.robot;
    let v = c.vision;
    let zero = Float32::nearest(0, 1);
    let low = Float32::nearest(-160, 1);
    let high = Float32::nearest(160, 1);
    let floor = Float32::nearest(-200, 1);
    Float32::law_integers_are_exact(-160);
    Float32::law_integers_are_exact(160);
    Float32::law_integers_are_exact(-200);
    Float32::law_integers_are_exact(0);
    Float64::law_integers_are_exact(0);
    Float64::law_integers_are_exact(255);
    law_valid_breaks_no_rule(c, level_parses);
    assert(!breaks(c, level_parses, ConfigError::XBounds));
    assert(!breaks(c, level_parses, ConfigError::YBounds));
    assert(!breaks(c, level_parses, ConfigError::ZBounds));
    assert(!breaks(c, level_parses, ConfigError::PickHeight));
    assert(!breaks(c, level_parses, ConfigError::TravelHeight));
    assert(!breaks(c, level_parses, ConfigError::TravelNotAbovePick));
    assert(!breaks(c, level_parses, ConfigError::XEnvelope));
    assert(!breaks(c, level_parses, ConfigError::YEnvelope));
    assert(!breaks(c, level_parses, ConfigError::ZEnvelope));
    assert(!breaks(c, level_parses, ConfigError::Scale));
    assert(!breaks(c, level_parses, ConfigError::Threshold));
    assert(!breaks(c, level_parses, ConfigError::AreaLimits));
    assert(!breaks(c, level_parses, ConfigError::AreaOrder));
    lemma_range(low, r.x_min, high);
    lemma_range(low, r.x_max, high);
    lemma_range(low, r.y_min, high);
    lemma_range(low, r.y_max, high);
    lemma_range(floor, r.z_min, zero);
    lemma_range(floor, r.z_max, zero);
    lemma_range(floor, r.z_pick, zero);
    lemma_range(floor, r.z_travel, zero);
    Float32::law_order_is_value(r.x_min, r.x_max);
    Float32::law_order_is_value(r.y_min, r.y_max);
    Float32::law_order_is_value(r.z_min, r.z_pick);
    Float32::law_order_is_value(r.z_pick, r.z_travel);
    Float32::law_order_is_value(r.z_travel, r.z_max);
    Float32::law_order_is_value(zero, v.mm_per_px);
    lemma_wide_range(Float64::nearest(0, 1), v.threshold, Float64::nearest(255, 1));
    Float64::law_order_is_value(Float64::nearest(0, 1), v.min_area);
    Float64::law_order_is_value(v.min_area, v.max_area);
    if 0 <= i < c.sorting.bins@.len() {
        let b = c.sorting.bins@[i];
        lemma_every_bin(c, i);
        lemma_range(r.x_min, b.x, r.x_max);
        lemma_range(r.y_min, b.y, r.y_max);
        lemma_range(r.z_min, b.z, r.z_max);
    }
}

proof fn lemma_range(a: Float32, x: Float32, b: Float32)
    requires
        a.finite(),
        b.finite(),
        a.at_most(x),
        x.at_most(b),
    ensures
        x.finite(),
        a.units() <= x.units() <= b.units(),
{
    Float32::lemma_limits();
    Float32::law_order_is_value(a, x);
    Float32::law_order_is_value(x, b);
}

proof fn lemma_wide_range(a: Float64, x: Float64, b: Float64)
    requires
        a.finite(),
        b.finite(),
        a.at_most(x),
        x.at_most(b),
    ensures
        x.finite(),
        a.units() <= x.units() <= b.units(),
{
    Float64::lemma_limits();
    Float64::law_order_is_value(a, x);
    Float64::law_order_is_value(x, b);
}

/// Without a first bin that cannot be reached there is none at all.
proof fn lemma_every_bin(c: AppConfig, i: int)
    requires
        c.sorting.bins@.len() > i >= 0,
        forall|k: int| !is_stray_bin(c.robot.limits(), c.sorting.bins@, k),
    ensures
        forall|j: int| #![trigger c.sorting.bins@[j]]
            0 <= j <= i ==> c.robot.limits().holds(c.sorting.bins@[j].place()),
    decreases i,
{
    if i > 0 {
        lemma_every_bin(c, i - 1);
    }
    assert(!is_stray_bin(c.robot.limits(), c.sorting.bins@, i));
}

// --- Where a class goes ---

/// Assignment `i` sends its class to bin `b`: the first bin of the name that
/// the assignment gives.
pub open spec fn sends_to(s: SortingConfig, i: int, b: int) -> bool {
    &&& 0 <= i < s.assignments@.len()
    &&& 0 <= b < s.bins@.len()
    &&& s.bins@[b].id@ == s.assignments@[i].bin@
    &&& forall|k: int| #![trigger s.bins@[k]]
        0 <= k < b ==> s.bins@[k].id@ != s.assignments@[i].bin@
}

/// A class is dropped where its last assignment to an existing bin sends it.
pub proof fn law_last_assignment_counts(s: SortingConfig, i: int, b: int)
    requires
        sends_to(s, i, b),
        forall|j: int, k: int|
            i < j && s.assignments@[j].class@ == s.assignments@[i].class@ ==> !(#[trigger] sends_to(
                s,
                j,
                k,
            )),
    ensures
        ({
            let class = s.assignments@[i].class@;
            &&& s.drops().contains_key(class)
            &&& s.drops()[class].x == s.bins@[b].x
            &&& s.drops()[class].y == s.bins@[b].y
            &&& s.drops()[class].z == s.bins@[b].z
        }),
{
    lemma_drop(s, i, b, s.assignments@.len() as int);
}

proof fn lemma_first_bin(bins: Seq<BinConfig>, id: Seq<char>, b: int)
    requires
        is_bin(bins, id, b),
    ensures
        bin_place(bins, id) == Some(bins[b].place()),
{
    let c = choose|c: int| is_bin(bins, id, c);
    if c < b {
        assert(bins[c].id@ != id);
    }
    if b < c {
        assert(bins[b].id@ != id);
    }
}

proof fn lemma_drop(s: SortingConfig, i: int, b: int, n: int)
    requires
        sends_to(s, i, b),
        i < n <= s.assignments@.len(),
        forall|j: int, k: int|
            i < j && s.assignments@[j].class@ == s.assignments@[i].class@ ==> !(#[trigger] sends_to(
                s,
                j,
                k,
            )),
    ensures
        ({
            let m = drops_to(s.bins@, s.assignments@, n);
            let class = s.assignments@[i].class@;
            m.contains_key(class) && m[class] == s.bins@[b].place()
        }),
    decreases n,
{
    let a = s.assignments@[n - 1];
    if n - 1 == i {
        assert(is_bin(s.bins@, a.bin@, b));
        lemma_first_bin(s.bins@, a.bin@, b);
    } else {
        lemma_drop(s, i, b, n - 1);
        if a.class@ == s.assignments@[i].class@ && bin_place(s.bins@, a.bin@) is Some {
            let k = choose|k: int| is_bin(s.bins@, a.bin@, k);
            assert(sends_to(s, n - 1, k));
        }
    }
}

/// A class that no assignment sends to an existing bin is not dropped
/// anywhere.
pub proof fn law_unassigned_class_has_no_drop(s: SortingConfig, class: Seq<char>)
    requires
        forall|i: int, b: int| #[trigger]
            sends_to(s, i, b) ==> s.assignments@[i].class@ != class,
    ensures
        !s.drops().contains_key(class),
{
    lemma_no_drop(s, class, s.assignments@.len() as int);
}

proof fn lemma_no_drop(s: SortingConfig, class: Seq<char>, n: int)
    requires
        n <= s.assignments@.len(),
        forall|i: int, b: int| #[trigger]
            sends_to(s, i, b) ==> s.assignments@[i].class@ != class,
    ensures
        !drops_to(s.bins@, s.assignments@, n).contains_key(class),
    decreases n,
{
    if n > 0 {
        lemma_no_drop(s, class, n - 1);
        let a = s.assignments@[n - 1];
        if bin_place(s.bins@, a.bin@) is Some {
            let k = choose|k: int| is_bin(s.bins@, a.bin@, k);
            assert(sends_to(s, n - 1, k));
        }
    }
}

} // verus!

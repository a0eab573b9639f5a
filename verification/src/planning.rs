//! What an intercept is, in whole numbers: when the belt brings the part to
//! the pick line, and whether the arm is there first.
use crate::float::Float32;
use crate::hardware::Position;
use crate::orchestrator::TrajectoryPlanner;
use crate::vision::nearness::lemma_compare;
use vstd::prelude::*;

verus! {

/// Where a part is intercepted, it is on the pick line, and as far across the
/// belt as it was seen. A part without a place is never intercepted, nor is
/// any on a belt that does not run.
pub proof fn law_intercept_is_on_the_line(
    planner: TrajectoryPlanner,
    from: Position,
    pos: Option<Position>,
)
    ensures
        planner.intercept(from, pos) matches Some((x, y)) ==> pos is Some && x == pos->0.x && y
            == planner.pick_line_y,
        pos is None ==> planner.intercept(from, pos) is None,
        planner.conveyor_speed_mm_s.equals(Float32::nearest(0, 1)) ==> planner.intercept(
            from,
            pos,
        ) is None,
{
}

/// With a belt that brings the part to the line in `seconds`, and an arm that
/// gets there in `needed`, the part is intercepted exactly where it is still
/// to come and the arm is there strictly before it. All numbers are whole: the
/// speeds `belt` and `arm` in millimetres per second, the line at `line`, the
/// part at `x` and as far before the line as the belt goes in that time, the
/// arm at `(ax, ay)`, whose straight way there is as long as it goes in the
/// time it needs.
pub proof fn law_intercept_is_a_race(
    planner: TrajectoryPlanner,
    from: Position,
    pos: Position,
    belt: int,
    arm: int,
    line: int,
    x: int,
    ax: int,
    ay: int,
    seconds: int,
    needed: int,
)
    requires
        planner.conveyor_speed_mm_s.exactly(belt, 149),
        planner.robot_speed_mm_s.exactly(arm, 149),
        planner.pick_line_y.exactly(line, 149),
        pos.x.exactly(x, 149),
        pos.y.exactly(line - seconds * belt, 149),
        from.x.exactly(ax, 149),
        from.y.exactly(ay, 149),
        belt != 0,
        arm > 0,
        needed >= 0,
        needed * arm < 2048,
        (x - ax) * (x - ax) + (line - ay) * (line - ay) == (needed * arm) * (needed * arm),
        -0x100_0000 < seconds * belt < 0x100_0000,
        -0x100_0000 < seconds < 0x100_0000,
    ensures
        planner.intercept(from, Some(pos)) is Some <==> seconds > 0 && needed < seconds,
{
    let zero = Float32::nearest(0, 1);
    let way = needed * arm;
    Float32::law_integers_are_exact(0);
    lemma_compare(planner.conveyor_speed_mm_s, zero, belt, 0, 149);
    Float32::law_whole_difference(planner.pick_line_y, pos.y, line, line - seconds * belt, 149);
    let ahead = planner.pick_line_y.difference(pos.y);
    assert(ahead.exactly(seconds * belt, 149));
    Float32::law_whole_quotient(ahead, planner.conveyor_speed_mm_s, seconds, belt, 149, 149);
    let t = planner.time_to_line(pos.y);
    assert(t.exactly(seconds, 149));
    lemma_compare(t, zero, seconds, 0, 149);
    let (u, v) = (x - ax, line - ay);
    let dx = pos.x.difference(from.x);
    let dy = planner.pick_line_y.difference(from.y);
    assert(way * way < 2048 * 2048 && 0 <= way) by (nonlinear_arith)
        requires
            way == needed * arm,
            needed >= 0,
            arm > 0,
            way < 2048,
    ;
    assert(u * u >= 0 && v * v >= 0 && -2048 < u < 2048 && -2048 < v < 2048) by (nonlinear_arith)
        requires
            u * u + v * v == way * way,
            way * way < 2048 * 2048,
    ;
    Float32::law_whole_difference(pos.x, from.x, x, ax, 149);
    Float32::law_whole_difference(planner.pick_line_y, from.y, line, ay, 149);
    Float32::law_whole_product(dx, dx, u, u, 149, 149);
    Float32::law_whole_product(dy, dy, v, v, 149, 149);
    let square = dx.product(dx).sum(dy.product(dy));
    Float32::law_whole_sum(dx.product(dx), dy.product(dy), u * u, v * v, 149);
    let c = Float32::lemma_represented(way, 149);
    Float32::law_whole_root(square, c, way * way, way, 149, 149);
    assert(needed < 0x100_0000) by (nonlinear_arith)
        requires
            needed * arm < 2048,
            arm >= 1,
            needed >= 0,
    ;
    Float32::law_whole_quotient(
        square.root(),
        planner.robot_speed_mm_s,
        needed,
        arm,
        149,
        149,
    );
    lemma_compare(planner.robot_time(from, pos.x), t, needed, seconds, 149);
}

} // verus!

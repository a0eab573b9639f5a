//! What the calls to the orchestrator, the configuration and the panel do, seen
//! from outside: from what they are given to what they answer and what is left
//! behind.
use crate::app_config::{AppConfig, ConfigError, LoggingConfig, SortingConfig};
use crate::float::Float32;
use crate::hardware::Position;
use crate::orchestrator::{
    Action, InstructionQueue, Orchestrator, OrchestratorMsg, OrchestratorState, PickSequence,
    Reaction, RobotCommand, TrajectoryPlanner,
};
use crate::panel::{
    kept_log_files, robot_view, start_finished, start_message, start_tapped, stop_finished,
    BeltView, RobotView,
};
use crate::picking::{at_height, can_be_picked};
use crate::planning::law_intercept_is_a_race;
use crate::rules::{
    breaks, law_first_broken_rule_is_reported, law_last_assignment_counts,
    law_unassigned_class_has_no_drop, law_valid_breaks_no_rule, sends_to, turn,
};
use crate::safety::{commands_of, law_first_in_first_out};
use crate::vision::{ClassName, DetectedObject};
use vstd::prelude::*;

verus! {

// --- Messages ---

/// A part that can be picked is queued behind all others. Its pick goes over
/// the part, down to it, switches the suction on, gives it 150 milliseconds,
/// lifts the part, carries it to the bin of its class and lets it go there. It
/// may start until three seconds after the part was seen.
pub proof fn law_pick_is_queued_step_by_step(
    o: &mut Orchestrator,
    object: DetectedObject,
    now: u64,
    r: Reaction,
)
    requires
        call_ensures(Orchestrator::handle_message, (o, OrchestratorMsg::Pick(object), now), r),
        !old(o).paused,
        can_be_picked(old(o).setup(), object, now as int),
    ensures
        ({
            let q = final(o).queue@;
            let above = at_height(object.world_pos->0, old(o).z_travel);
            let part = at_height(object.world_pos->0, old(o).z_pick);
            let bin = old(o).setup().drops[object.class->0@];
            &&& q.len() == old(o).queue@.len() + 1
            &&& q.drop_last() == old(o).queue@
            &&& q.last().object_id == object.id
            &&& !q.last().started
            &&& q.last().expiry == object.seen_at + 3_000_000_000
            &&& q.last().steps == seq![
                RobotCommand::MoveTo(above),
                RobotCommand::MoveTo(part),
                RobotCommand::Gripper(true),
                RobotCommand::Wait(150),
                RobotCommand::MoveTo(above),
                RobotCommand::MoveTo(bin),
                RobotCommand::Gripper(false),
            ]
        }),
        !final(o).paused,
        r.declined is None && r.publish is None && r.error is None,
{
    assert(final(o).queue@ == final(o).flow().queue);
    assert(old(o).queue@ == old(o).flow().queue);
    assert(final(o).queue@.drop_last() =~= old(o).queue@);
}

/// Any other part is left where it is, and every part while paused.
pub proof fn law_other_part_is_not_queued(
    o: &mut Orchestrator,
    object: DetectedObject,
    now: u64,
    r: Reaction,
)
    requires
        call_ensures(Orchestrator::handle_message, (o, OrchestratorMsg::Pick(object), now), r),
        old(o).paused || !can_be_picked(old(o).setup(), object, now as int),
    ensures
        final(o).queue@ == old(o).queue@,
        final(o).paused == old(o).paused,
        r.declined == if !old(o).paused && old(o).reports_declines && now - object.seen_at
            > 3_000_000_000 {
            Some(object.id)
        } else {
            None
        },
{
    assert(final(o).queue@ == final(o).flow().queue);
    assert(old(o).queue@ == old(o).flow().queue);
    assert(final(o).paused == final(o).flow().paused);
}

/// A pause keeps the queue as it is, command for command, and what the operator
/// asked for; a Resume goes on with it, but for an E-stopped robot, which must
/// be homed first.
pub proof fn law_pause_and_resume_keep_the_queue(
    paused: &mut Orchestrator,
    resumed: &mut Orchestrator,
    at: u64,
    then: u64,
    x: Reaction,
    y: Reaction,
)
    requires
        call_ensures(Orchestrator::handle_message, (paused, OrchestratorMsg::Pause, at), x),
        *final(paused) == *old(resumed),
        call_ensures(Orchestrator::handle_message, (resumed, OrchestratorMsg::Resume, then), y),
    ensures
        final(paused).queue@ == old(paused).queue@,
        final(paused).paused,
        final(paused).pending_home == old(paused).pending_home,
        final(paused).pending_gripper == old(paused).pending_gripper,
        final(paused).needs_home == old(paused).needs_home,
        final(paused).last_pos == old(paused).last_pos,
        final(resumed).queue@ == old(paused).queue@,
        final(resumed).paused == old(paused).needs_home,
        final(resumed).last_pos == old(paused).last_pos,
        !old(paused).needs_home ==> x.publish == Some(OrchestratorState::Paused) && y.publish
            == Some(OrchestratorState::Running),
        old(paused).needs_home ==> x.publish == Some(OrchestratorState::EStopped) && y.publish
            == Some(OrchestratorState::EStopped),
{
    let (a, b, c) = (old(paused).flow(), final(paused).flow(), final(resumed).flow());
    assert(a.queue == old(paused).queue@ && b.queue == final(paused).queue@);
    assert(c.queue == final(resumed).queue@ && c.paused == final(resumed).paused);
    assert(b.paused == final(paused).paused && b.needs_home == final(paused).needs_home);
}

/// An E-stop empties the queue, drops what the operator had asked for, and
/// leaves the robot to be homed: a Resume is refused from there on.
pub proof fn law_estop_call_stops_all(
    stopped: &mut Orchestrator,
    resumed: &mut Orchestrator,
    at: u64,
    then: u64,
    x: Reaction,
    y: Reaction,
)
    requires
        call_ensures(Orchestrator::handle_message, (stopped, OrchestratorMsg::EStop, at), x),
        *final(stopped) == *old(resumed),
        call_ensures(Orchestrator::handle_message, (resumed, OrchestratorMsg::Resume, then), y),
    ensures
        final(stopped).queue@.len() == 0,
        final(stopped).paused && final(stopped).needs_home,
        !final(stopped).pending_home && final(stopped).pending_gripper is None,
        final(stopped).last_pos == old(stopped).last_pos,
        final(resumed).paused && final(resumed).needs_home,
        x.publish == Some(OrchestratorState::EStopped),
        y.publish == Some(OrchestratorState::EStopped),
        !x.release_gripper && !y.release_gripper,
{
    let (b, c) = (final(stopped).flow(), final(resumed).flow());
    assert(b.queue == final(stopped).queue@ && b.last_pos == final(stopped).last_pos);
    assert(c.paused == final(resumed).paused && c.needs_home == final(resumed).needs_home);
    assert(old(stopped).flow().last_pos == old(stopped).last_pos);
}

// --- Turns ---

/// A homing that was asked for comes next, whatever waits and even while
/// paused. Its success ends an E-stop and is told; its failure leaves the
/// robot as it was, and is told with its reason.
pub proof fn law_homing_is_carried_out_and_told(
    asked: &mut Orchestrator,
    acting: &mut Orchestrator,
    done: &mut Orchestrator,
    at: u64,
    now: u64,
    x: Reaction,
    a: Action,
    result: Result<(), String>,
    y: Reaction,
)
    requires
        call_ensures(Orchestrator::handle_message, (asked, OrchestratorMsg::Home, at), x),
        *final(asked) == *old(acting),
        call_ensures(Orchestrator::next_action, (acting, now), a),
        *final(acting) == *old(done),
        call_ensures(Orchestrator::finish_home, (done, result), y),
        !old(asked).shutting_down,
    ensures
        a is Home,
        final(done).queue@ == old(asked).queue@,
        final(done).paused == old(asked).paused,
        final(done).needs_home == (old(asked).needs_home && result is Err),
        !final(done).pending_home,
        final(done).pending_gripper == old(asked).pending_gripper,
        y.publish == Some(
            if final(done).needs_home {
                OrchestratorState::EStopped
            } else if final(done).paused {
                OrchestratorState::Paused
            } else {
                OrchestratorState::Running
            },
        ),
        y.error is Some <==> result is Err,
        result matches Err(reason) ==> {
            let text = y.error->0@;
            let n = reason@.len() as int;
            text.len() >= n && text.skip(text.len() - n) == reason@
        },
{
    let (f, g) = (old(asked).flow(), final(done).flow());
    assert(f.queue == old(asked).queue@ && g.queue == final(done).queue@);
    assert(f.paused == old(asked).paused && g.paused == final(done).paused);
    assert(f.needs_home == old(asked).needs_home && g.needs_home == final(done).needs_home);
    assert(f.pending_gripper == old(asked).pending_gripper);
    assert(g.pending_home == final(done).pending_home);
    assert(g.pending_gripper == final(done).pending_gripper);
    if let Err(reason) = result {
        let text = y.error->0@;
        assert(text.skip(text.len() - reason@.len()) =~= reason@);
    }
}

/// While running, and with no pick too old to start, the commands of the queue
/// are carried out one by one in their order.
pub proof fn law_queue_is_worked_off_in_order(o: &mut Orchestrator, now: u64, a: Action)
    requires
        call_ensures(Orchestrator::next_action, (o, now), a),
        !old(o).shutting_down,
        !old(o).pending_home,
        old(o).pending_gripper is None,
        !old(o).paused,
        commands_of(old(o).queue@).len() > 0,
        forall|i: int| #![trigger old(o).queue@[i]]
            0 <= i < old(o).queue@.len() ==> old(o).queue@[i].started || now < old(
                o,
            ).queue@[i].expiry,
    ensures
        a == Action::Execute(commands_of(old(o).queue@)[0]),
        commands_of(final(o).queue@) == commands_of(old(o).queue@).drop_first(),
        !final(o).paused,
{
    let (f, g) = (old(o).flow(), final(o).flow());
    assert(f.queue == old(o).queue@ && g.queue == final(o).queue@);
    assert(g.paused == final(o).paused);
    law_first_in_first_out(f.queue, now as int);
    if f.queue.len() == 0 {
        assert(commands_of(f.queue).len() == 0);
    }
}

/// While paused nothing of the queue is carried out, and it stays as it is.
pub proof fn law_paused_turn_leaves_the_queue(o: &mut Orchestrator, now: u64, a: Action)
    requires
        call_ensures(Orchestrator::next_action, (o, now), a),
        old(o).paused,
    ensures
        a !is Execute,
        final(o).queue@ == old(o).queue@,
        final(o).paused,
{
    assert(final(o).flow().queue == final(o).queue@ && old(o).flow().queue == old(o).queue@);
    assert(final(o).flow().paused == final(o).paused);
}

/// After a Shutdown the robot is parked: the suction off, and the arm up to
/// travel height over where it was last sent; not at all where it is E-stopped.
pub proof fn law_shutdown_call_parks(
    asked: &mut Orchestrator,
    acting: &mut Orchestrator,
    at: u64,
    now: u64,
    x: Reaction,
    a: Action,
)
    requires
        call_ensures(Orchestrator::handle_message, (asked, OrchestratorMsg::Shutdown, at), x),
        *final(asked) == *old(acting),
        call_ensures(Orchestrator::next_action, (acting, now), a),
    ensures
        a matches Action::Park(commands) && commands@ == if old(asked).needs_home {
            Seq::empty()
        } else {
            match old(asked).last_pos {
                Some(p) => seq![
                    RobotCommand::Gripper(false),
                    RobotCommand::MoveTo(at_height(p, old(asked).z_travel)),
                ],
                None => seq![RobotCommand::Gripper(false)],
            }
        },
{
    let f = old(asked).flow();
    assert(f.needs_home == old(asked).needs_home && f.last_pos == old(asked).last_pos);
    assert(old(asked).setup().z_travel == old(asked).z_travel);
}

/// A command that was carried out changes nothing but where the arm was last
/// sent. One that failed drops the picks and pauses; the operator is told, with
/// the reason, and the suction is switched off, unless the robot was halted.
pub proof fn law_command_ends_well_or_stops_sorting(
    o: &mut Orchestrator,
    cmd: RobotCommand,
    result: Result<(), String>,
    halted: bool,
    r: Reaction,
)
    requires
        call_ensures(Orchestrator::finish_command, (o, cmd, result, halted), r),
    ensures
        result is Ok ==> {
            &&& final(o).queue@ == old(o).queue@
            &&& final(o).paused == old(o).paused
            &&& final(o).last_pos == match cmd {
                RobotCommand::MoveTo(p) => Some(p),
                _ => old(o).last_pos,
            }
            &&& r.error is None && r.publish is None && !r.release_gripper
        },
        result matches Err(reason) ==> {
            &&& final(o).queue@.len() == 0
            &&& final(o).paused
            &&& final(o).last_pos == old(o).last_pos
            &&& r.error is Some
            &&& crate::text::occurs_in(reason@, r.error->0@)
            &&& r.release_gripper == !halted
            &&& r.publish == Some(
                if old(o).needs_home {
                    OrchestratorState::EStopped
                } else {
                    OrchestratorState::Paused
                },
            )
        },
        final(o).needs_home == old(o).needs_home,
        final(o).pending_home == old(o).pending_home,
        final(o).pending_gripper == old(o).pending_gripper,
{
    let (f, g) = (old(o).flow(), final(o).flow());
    assert(f.queue == old(o).queue@ && g.queue == final(o).queue@);
    assert(f.paused == old(o).paused && g.paused == final(o).paused);
    assert(f.last_pos == old(o).last_pos && g.last_pos == final(o).last_pos);
    assert(f.needs_home == old(o).needs_home && g.needs_home == final(o).needs_home);
    assert(f.pending_home == old(o).pending_home && g.pending_home == final(o).pending_home);
    assert(f.pending_gripper == old(o).pending_gripper);
    assert(g.pending_gripper == final(o).pending_gripper);
    if let Err(reason) = result {
        let text = r.error->0@;
        let head = "Robot command failed: "@.len() as int;
        assert(text.subrange(head, head + reason@.len()) =~= reason@);
        assert(crate::text::occurs_at(reason@, text, head));
    }
}

/// A queue hands out what was put in: the commands of one pick, in order, and
/// nothing once it was cleared.
pub proof fn law_queue_hands_out_what_was_put_in(
    put: &mut InstructionQueue,
    taken: &mut InstructionQueue,
    pick: PickSequence,
    now: u64,
    done: (),
    r: Option<RobotCommand>,
)
    requires
        call_ensures(InstructionQueue::push_sequence, (put, pick), done),
        *final(put) == *old(taken),
        call_ensures(InstructionQueue::next_command, (taken, now), r),
        old(put)@.len() == 0,
        pick@.steps.len() > 0,
    ensures
        pick@.started || now < pick@.expiry ==> {
            &&& r == Some(pick@.steps[0])
            &&& final(taken)@.len() == 1
            &&& final(taken)@[0].steps == pick@.steps.drop_first()
            &&& final(taken)@[0].started
        },
        !pick@.started && pick@.expiry <= now ==> r is None && final(taken)@.len() == 0,
{
    let q = old(taken)@;
    assert(q =~= seq![pick@]);
    assert(q.drop_first() =~= Seq::empty());
    reveal_with_fuel(crate::orchestrator::dead_prefix, 2);
    assert(q.skip(0) =~= q);
}

// --- Intercepts ---

/// Where the belt brings a part to the pick line in `seconds`, and the arm is
/// there in `needed`, the part is intercepted exactly where it is still to come
/// and the arm is there strictly before it: on the line, as far across as the
/// part was seen.
pub proof fn law_intercept_call_is_a_race(
    planner: &TrajectoryPlanner,
    from: Position,
    object: &DetectedObject,
    r: Option<(Float32, Float32)>,
    belt: int,
    arm: int,
    line: int,
    x: int,
    ax: int,
    ay: int,
    seconds: int,
    needed: int,
)
    requires
        call_ensures(TrajectoryPlanner::calculate_intercept, (planner, from, object), r),
        object.world_pos is Some,
        planner.conveyor_speed_mm_s.exactly(belt, 149),
        planner.robot_speed_mm_s.exactly(arm, 149),
        planner.pick_line_y.exactly(line, 149),
        object.world_pos->0.x.exactly(x, 149),
        object.world_pos->0.y.exactly(line - seconds * belt, 149),
        from.x.exactly(ax, 149),
        from.y.exactly(ay, 149),
        belt != 0,
        arm > 0,
        needed >= 0,
        needed * arm < 2048,
        (x - ax) * (x - ax) + (line - ay) * (line - ay) == (needed * arm) * (needed * arm),
        -0x100_0000 < seconds * belt < 0x100_0000,
        -0x100_0000 < seconds < 0x100_0000,
    ensures
        r is Some <==> seconds > 0 && needed < seconds,
        r matches Some((px, py)) ==> px.exactly(x, 149) && py.exactly(line, 149),
{
    law_intercept_is_a_race(
        *planner,
        from,
        object.world_pos->0,
        belt,
        arm,
        line,
        x,
        ax,
        ay,
        seconds,
        needed,
    );
}

// --- Configuration ---

/// A configuration is refused for the first rule that it breaks, and taken
/// where it breaks none.
pub proof fn law_validation_reports_the_first_broken_rule(
    c: &AppConfig,
    level_parses: bool,
    r: Result<(), ConfigError>,
)
    requires
        call_ensures(AppConfig::validate_with, (c, level_parses), r),
    ensures
        r is Ok <==> forall|e: ConfigError| !(#[trigger] breaks(*c, level_parses, e)),
        r matches Err(e) ==> breaks(*c, level_parses, e) && forall|other: ConfigError| #[trigger]
            turn(other) < turn(e) ==> !breaks(*c, level_parses, other),
{
    law_valid_breaks_no_rule(*c, level_parses);
    if let Err(e) = r {
        law_first_broken_rule_is_reported(*c, level_parses, e);
    }
}

/// The list of drop positions has a class once, where its last assignment to an
/// existing bin sends it, and has no class without one.
pub proof fn law_drop_list_follows_the_assignments(
    s: &SortingConfig,
    r: Vec<(ClassName, Position)>,
    i: int,
    b: int,
    k: int,
)
    requires
        call_ensures(SortingConfig::class_drop_positions, (s,), r),
        sends_to(*s, i, b),
        forall|j: int, k: int|
            i < j && s.assignments@[j].class@ == s.assignments@[i].class@ ==> !(#[trigger] sends_to(
                *s,
                j,
                k,
            )),
    ensures
        exists|n: int| #![trigger r@[n]]
            0 <= n < r@.len() && r@[n].0@ == s.assignments@[i].class@,
        0 <= k < r@.len() && r@[k].0@ == s.assignments@[i].class@ ==> r@[k].1.x == s.bins@[b].x
            && r@[k].1.y == s.bins@[b].y && r@[k].1.z == s.bins@[b].z,
{
    law_last_assignment_counts(*s, i, b);
    assert(s.drops().contains_key(s.assignments@[i].class@));
}

/// A class that no assignment sends to an existing bin is not in the list.
pub proof fn law_drop_list_leaves_out_the_unassigned(
    s: &SortingConfig,
    r: Vec<(ClassName, Position)>,
    class: Seq<char>,
    k: int,
)
    requires
        call_ensures(SortingConfig::class_drop_positions, (s,), r),
        forall|i: int, b: int| #[trigger]
            sends_to(*s, i, b) ==> s.assignments@[i].class@ != class,
        0 <= k < r@.len(),
    ensures
        r@[k].0@ != class,
{
    law_unassigned_class_has_no_drop(*s, class);
    assert(s.drops().contains_key(r@[k].0@));
}

/// An orchestrator starts paused with nothing to do, and works within the
/// configured workspace, at the configured heights and speeds.
pub proof fn law_orchestrator_starts_paused(c: &AppConfig, o: Orchestrator)
    requires
        call_ensures(Orchestrator::new, (c,), o),
    ensures
        o.paused && !o.needs_home && !o.shutting_down && !o.pending_home,
        o.pending_gripper is None && o.last_pos is None,
        o.queue@.len() == 0,
        o.limits.x_min == c.robot.x_min && o.limits.x_max == c.robot.x_max,
        o.limits.y_min == c.robot.y_min && o.limits.y_max == c.robot.y_max,
        o.limits.z_min == c.robot.z_min && o.limits.z_max == c.robot.z_max,
        o.z_pick == c.robot.z_pick && o.z_travel == c.robot.z_travel,
        o.setup().drops == c.sorting.drops(),
        o.planner.conveyor_speed_mm_s == c.conveyor.speed_mm_s,
        o.planner.pick_line_y.exactly(0, 149),
        forall|n: int|
            c.robot.feed_rate == 60 * n && n < 0x4_0000 ==> #[trigger]
                o.planner.robot_speed_mm_s.exactly(n, 149),
{
    let (f, s) = (o.flow(), o.setup());
    assert(f.queue == o.queue@ && f.paused == o.paused && f.needs_home == o.needs_home);
    assert(f.pending_home == o.pending_home && f.pending_gripper == o.pending_gripper);
    assert(f.shutting_down == o.shutting_down && f.last_pos == o.last_pos);
    assert(s.limits == o.limits && s.z_pick == o.z_pick && s.z_travel == o.z_travel);
    Float32::law_integers_are_exact(0);
    assert forall|n: int|
        c.robot.feed_rate == 60 * n && n < 0x4_0000 implies #[trigger]
            o.planner.robot_speed_mm_s.exactly(n, 149) by {
        Float32::law_integers_are_exact(60 * n);
        Float32::law_integers_are_exact(60);
        Float32::law_whole_quotient(
            Float32::nearest(60 * n, 1),
            Float32::nearest(60, 1),
            n,
            60,
            149,
            149,
        );
    }
}

// --- The panel ---

/// Start and Pause take turns: a tap asks for what the belt is not doing, and
/// the orchestrator is told to go on with a start and to pause with a stop. A
/// tap while a command is in flight asks for nothing.
pub proof fn law_tap_asks_for_the_other(
    in_flight: bool,
    running: bool,
    r: Option<bool>,
    starting: bool,
    told: OrchestratorMsg,
)
    requires
        call_ensures(start_tapped, (in_flight, running), r),
        call_ensures(start_message, (starting,), told),
    ensures
        r is None <==> in_flight,
        r matches Some(start) ==> start != running,
        starting ==> told is Resume,
        !starting ==> told is Pause,
{
}

/// The belt is shown as running only where a start succeeded. A failure is
/// always told; after one to start or to pause the belt is shown as standing,
/// and after one to stop it as it was.
pub proof fn law_belt_is_shown_as_confirmed(
    starting: bool,
    succeeded: bool,
    started: BeltView,
    stopped: BeltView,
)
    requires
        call_ensures(start_finished, (starting, succeeded), started),
        call_ensures(stop_finished, (succeeded,), stopped),
    ensures
        started.moves <==> starting && succeeded,
        started.running == Some(started.moves),
        started.error is None <==> succeeded,
        !stopped.moves,
        stopped.running is None <==> !succeeded,
        stopped.running != Some(true),
        stopped.error is None <==> succeeded,
{
}

/// Start is locked exactly while the robot is E-stopped, when the belt is shown
/// as standing too; sorting is shown only while it goes on.
pub proof fn law_state_is_shown_as_it_is(s: OrchestratorState, v: RobotView)
    requires
        call_ensures(robot_view, (s,), v),
    ensures
        v.estopped <==> s is EStopped,
        v.belt_stopped <==> s is EStopped,
        v.orchestrator_running <==> s is Running,
{
}

/// As many log files are kept as days are asked for; all of them for none.
pub proof fn law_log_files_are_kept_by_the_day(cfg: &LoggingConfig, r: Option<usize>)
    requires
        call_ensures(kept_log_files, (cfg,), r),
    ensures
        cfg.keep_days == 0 <==> r is None,
        r matches Some(n) ==> n == cfg.keep_days,
{
}

} // verus!

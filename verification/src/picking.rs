//! What a pick does with the part, and what the operator's messages do to the
//! picks that are under way.
use crate::app_config::RobotConfig;
use crate::float::Float32;
use crate::hardware::{Position, WorkspaceLimits};
use crate::orchestrator::{
    after_action, after_command, pending, Action, Flow, Group, OrchestratorMsg,
    OrchestratorState, Reaction, RobotCommand, Setup,
};
use crate::safety::{
    after_event, commands_of, given, issued, law_started_group_goes_on, serves_queue, Event,
};
use crate::vision::DetectedObject;
use vstd::prelude::*;

verus! {

// --- One pick ---

/// Where the arm is before step `k`: the target of the last move.
pub open spec fn place_before(steps: Seq<RobotCommand>, k: int) -> Option<Position>
    decreases k,
{
    if k <= 0 {
        None
    } else {
        match steps[k - 1] {
            RobotCommand::MoveTo(p) => Some(p),
            _ => place_before(steps, k - 1),
        }
    }
}

/// Whether the suction is on before step `k`.
pub open spec fn holding_before(steps: Seq<RobotCommand>, k: int) -> bool
    decreases k,
{
    if k <= 0 {
        false
    } else {
        match steps[k - 1] {
            RobotCommand::Gripper(on) => on,
            _ => holding_before(steps, k - 1),
        }
    }
}

/// How long was waited, in milliseconds, since the gripper was last switched.
pub open spec fn waited_before(steps: Seq<RobotCommand>, k: int) -> int
    decreases k,
{
    if k <= 0 {
        0
    } else {
        match steps[k - 1] {
            RobotCommand::Gripper(_) => 0,
            RobotCommand::Wait(ms) => waited_before(steps, k - 1) + ms,
            _ => waited_before(steps, k - 1),
        }
    }
}

/// A part that can be picked: seen at most three seconds ago, placed, of a
/// class that has a bin, and within reach both at pick and at travel height.
pub open spec fn can_be_picked(setup: Setup, object: DetectedObject, now: int) -> bool {
    &&& now - object.seen_at <= 3_000_000_000
    &&& object.world_pos is Some
    &&& object.class is Some
    &&& setup.drops.contains_key(object.class->0@)
    &&& setup.limits.holds(at_height(object.world_pos->0, setup.z_pick))
    &&& setup.limits.holds(at_height(object.world_pos->0, setup.z_travel))
}

/// The same place on the belt at another height.
pub open spec fn at_height(p: Position, z: Float32) -> Position {
    Position { x: p.x, y: p.y, z }
}

/// A part that can be picked is queued, last, and nothing else changes; its
/// pick may start until three seconds after it was seen.
pub proof fn law_good_part_is_queued(setup: Setup, f: Flow, object: DetectedObject, now: int)
    requires
        !f.paused,
        can_be_picked(setup, object, now),
    ensures
        ({
            let after = setup.after_message(f, OrchestratorMsg::Pick(object), now);
            let g = after.queue.last();
            &&& after == (Flow { queue: after.queue, ..f })
            &&& after.queue.len() == f.queue.len() + 1
            &&& after.queue.drop_last() == f.queue
            &&& g.object_id == object.id
            &&& g.expiry == object.seen_at + 3_000_000_000
            &&& !g.started
        }),
{
    let after = setup.after_message(f, OrchestratorMsg::Pick(object), now);
    assert(after.queue.drop_last() =~= f.queue);
}

/// Any other part is left, and so is every part while paused. One that was
/// seen too long ago is told about, where that is asked for.
pub proof fn law_any_other_part_is_left(
    setup: Setup,
    f: Flow,
    object: DetectedObject,
    now: int,
    r: Reaction,
)
    requires
        f.paused || !can_be_picked(setup, object, now),
        setup.reaction_to(f, OrchestratorMsg::Pick(object), now, r),
    ensures
        setup.after_message(f, OrchestratorMsg::Pick(object), now) == f,
        r.declined == if !f.paused && setup.reports_declines && now - object.seen_at
            > 3_000_000_000 {
            Some(object.id)
        } else {
            None
        },
        r.publish is None,
{
}

/// The pick of a part takes it from where it lies to the bin of its class:
/// - the arm goes to travel height above the part and from there straight
///   down to it;
/// - the suction is switched on there, once, and given 150 milliseconds
///   before the arm moves again;
/// - the arm then goes straight up to travel height, and on to the bin, with
///   the suction on;
/// - there it is switched off, and the pick is over.
pub proof fn law_pick_carries_the_part_to_its_bin(
    setup: Setup,
    f: Flow,
    object: DetectedObject,
    now: int,
)
    requires
        !f.paused,
        can_be_picked(setup, object, now),
    ensures
        ({
            let steps = setup.after_message(
                f,
                OrchestratorMsg::Pick(object),
                now,
            ).queue.last().steps;
            let above = at_height(object.world_pos->0, setup.z_travel);
            let part = at_height(object.world_pos->0, setup.z_pick);
            let bin = setup.drops[object.class->0@];
            &&& exists|k: int| #![trigger steps[k]]
                0 <= k < steps.len() && steps[k] == RobotCommand::Gripper(true)
            &&& !holding_before(steps, steps.len() as int)
            &&& place_before(steps, steps.len() as int) == Some(bin)
            &&& forall|k: int| #![trigger steps[k]]
                0 <= k < steps.len() ==> match steps[k] {
                    RobotCommand::Gripper(true) => !holding_before(steps, k) && place_before(
                        steps,
                        k,
                    ) == Some(part),
                    RobotCommand::Gripper(false) => holding_before(steps, k) && place_before(
                        steps,
                        k,
                    ) == Some(bin),
                    RobotCommand::MoveTo(to) => if !holding_before(steps, k) {
                        match place_before(steps, k) {
                            None => to == above,
                            Some(from) => from == above && to == part,
                        }
                    } else {
                        &&& waited_before(steps, k) >= 150
                        &&& match place_before(steps, k) {
                            Some(from) => (from == part && to == above) || (from == above && to
                                == bin),
                            None => false,
                        }
                    },
                    RobotCommand::Wait(_) => true,
                    RobotCommand::Home => false,
                }
        }),
{
    let q = setup.after_message(f, OrchestratorMsg::Pick(object), now).queue;
    let steps = q.last().steps;
    let above = at_height(object.world_pos->0, setup.z_travel);
    let part = at_height(object.world_pos->0, setup.z_pick);
    let bin = setup.drops[object.class->0@];
    assert(steps.len() == 7);
    reveal_with_fuel(place_before, 9);
    reveal_with_fuel(holding_before, 9);
    reveal_with_fuel(waited_before, 9);
    assert(steps[2] == RobotCommand::Gripper(true));
    assert(steps[0] == RobotCommand::MoveTo(above));
    assert(steps[1] == RobotCommand::MoveTo(part));
    assert(steps[3] == RobotCommand::Wait(150));
    assert(steps[4] == RobotCommand::MoveTo(above));
    assert(steps[5] == RobotCommand::MoveTo(bin));
    assert(steps[6] == RobotCommand::Gripper(false));
}

// --- What messages do to the picks under way ---

/// A pause keeps the picks, and whatever the operator asked for: only nothing
/// more is taken out of the queue.
pub proof fn law_pause_keeps_the_queue(setup: Setup, f: Flow, now: int)
    ensures
        ({
            let after = setup.after_message(f, OrchestratorMsg::Pause, now);
            &&& after.queue == f.queue
            &&& after.paused
            &&& after == (Flow { paused: true, ..f })
        }),
{
}

/// A pause that is followed by a Resume leads back to where it began: the same
/// queue, and the same command next. A Resume is refused only after an E-stop.
pub proof fn law_resume_goes_on_where_paused(setup: Setup, f: Flow, at: int, then: int, now: int)
    requires
        !f.needs_home,
    ensures
        ({
            let paused = setup.after_message(f, OrchestratorMsg::Pause, at);
            let after = setup.after_message(paused, OrchestratorMsg::Resume, then);
            &&& after.queue == f.queue
            &&& after == (Flow { paused: false, ..f })
            &&& !f.paused ==> after == f && issued(setup, after, now) == issued(setup, f, now)
            &&& after.state() == OrchestratorState::Running
        }),
{
}

/// A pick that has started is dropped only by an E-stop or by a command that
/// failed: whatever else happens, it stays first, and is either as it was or
/// one command nearer to its end.
pub proof fn law_started_pick_is_finished(setup: Setup, f: Flow, e: Event)
    requires
        f.queue.len() > 0,
        f.queue[0].started,
        f.queue[0].steps.len() > 0,
        !(e matches Event::Message { msg, .. } && msg is EStop),
        !(e matches Event::Turn { succeeded, .. } && !succeeded),
    ensures
        ({
            let g = f.queue[0];
            let after = after_event(setup, f, e).queue;
            &&& after.len() >= f.queue.len()
            &&& after[0].object_id == g.object_id
            &&& after[0].started
            &&& after[0].expiry == g.expiry
            &&& after[0].steps == g.steps || (after[0].steps == g.steps.drop_first() && e is Turn)
            &&& forall|i: int| #![trigger after[i]]
                0 < i < f.queue.len() ==> after[i] == f.queue[i]
        }),
{
    match e {
        Event::Message { msg, now } => {},
        Event::Turn { now, .. } => {
            law_started_group_goes_on(f.queue, now);
        },
    }
}

/// No message but an E-stop takes anything out of the queue, and none but a
/// pick puts anything in.
pub proof fn law_messages_leave_the_queue(setup: Setup, f: Flow, msg: OrchestratorMsg, now: int)
    requires
        msg !is EStop,
        msg !is Pick,
    ensures
        setup.after_message(f, msg, now).queue == f.queue,
        setup.after_message(f, msg, now).last_pos == f.last_pos,
        setup.after_message(f, msg, now).needs_home == f.needs_home,
{
}

/// A turn that serves the queue gives the robot the first command that is left
/// and, once that is carried out, leaves the others in their order.
pub proof fn law_turn_serves_the_first_command(setup: Setup, f: Flow, now: int, halted: bool)
    requires
        !f.shutting_down,
        !f.pending_home,
        f.pending_gripper is None,
        !f.paused,
        commands_of(f.queue).len() > 0,
        forall|i: int| #![trigger f.queue[i]]
            0 <= i < f.queue.len() ==> f.queue[i].started || now < f.queue[i].expiry,
    ensures
        given(setup, f, now, true, halted) == seq![commands_of(f.queue)[0]],
        commands_of(
            after_event(setup, f, Event::Turn { now, succeeded: true, halted }).queue,
        ) == commands_of(f.queue).drop_first(),
{
    crate::safety::law_first_in_first_out(f.queue, now);
}

/// The length of the queue is the number of commands in it.
pub proof fn law_length_counts_commands(q: Seq<Group>)
    ensures
        pending(q) == commands_of(q).len(),
    decreases q.len(),
{
    if q.len() > 0 {
        let rest = q.drop_first();
        law_length_counts_commands(rest);
        lemma_pending_front(q);
    }
}

proof fn lemma_pending_front(q: Seq<Group>)
    requires
        q.len() > 0,
    ensures
        pending(q) == q[0].steps.len() + pending(q.drop_first()),
    decreases q.len(),
{
    if q.len() > 1 {
        lemma_pending_front(q.drop_last());
        assert(q.drop_last().drop_first() =~= q.drop_first().drop_last());
        assert(q.drop_first().last() == q.last());
    } else {
        assert(q.drop_last() =~= Seq::empty());
        assert(q.drop_first() =~= Seq::empty());
        assert(pending(q.drop_last()) == 0);
    }
}

// --- What the operator asks for ---

/// A homing that is asked for is what the robot is given next, before the
/// gripper and the queue and even while paused; it is given once, and nothing
/// else changes but that its success ends an E-stop.
pub proof fn law_homing_comes_next(setup: Setup, f: Flow, at: int, now: int, succeeded: bool)
    requires
        !f.shutting_down,
    ensures
        ({
            let asked = setup.after_message(f, OrchestratorMsg::Home, at);
            let after = after_event(
                setup,
                asked,
                Event::Turn { now, succeeded, halted: false },
            );
            &&& asked == (Flow { pending_home: true, ..f })
            &&& given(setup, asked, now, succeeded, false) == seq![RobotCommand::Home]
            &&& after == (Flow {
                pending_home: false,
                needs_home: f.needs_home && !succeeded,
                ..f
            })
        }),
{
}

/// The gripper is switched as was asked last, before the queue and even while
/// paused, once, and nothing else changes.
pub proof fn law_gripper_comes_next(
    setup: Setup,
    f: Flow,
    on: bool,
    at: int,
    now: int,
    succeeded: bool,
    halted: bool,
)
    requires
        !f.shutting_down,
        !f.pending_home,
    ensures
        ({
            let asked = setup.after_message(f, OrchestratorMsg::SetGripper(on), at);
            &&& asked == (Flow { pending_gripper: Some(on), ..f })
            &&& given(setup, asked, now, succeeded, halted) == seq![RobotCommand::Gripper(on)]
            &&& after_event(setup, asked, Event::Turn { now, succeeded, halted }) == (Flow {
                pending_gripper: None,
                ..f
            })
        }),
{
}

/// After a Shutdown the robot is parked and given nothing else: the suction
/// off, and the arm straight up to travel height from where it was last sent.
/// An E-stopped robot is given nothing.
pub proof fn law_shutdown_parks(setup: Setup, f: Flow, at: int, now: int)
    ensures
        ({
            let asked = setup.after_message(f, OrchestratorMsg::Shutdown, at);
            let commands = given(setup, asked, now, true, false);
            &&& asked == (Flow { shutting_down: true, ..f })
            &&& f.needs_home ==> commands.len() == 0
            &&& !f.needs_home ==> commands.len() >= 1 && commands[0] == RobotCommand::Gripper(
                false,
            )
            &&& !f.needs_home && f.last_pos is None ==> commands.len() == 1
            &&& !f.needs_home && f.last_pos is Some ==> commands.len() == 2 && commands[1]
                == RobotCommand::MoveTo(at_height(f.last_pos->0, setup.z_travel))
        }),
{
}

/// An E-stop drops the picks and what the operator had asked for, pauses, and
/// asks for homing. Where the arm was last sent, and whether the program is
/// about to end, is still known.
pub proof fn law_estop_drops_what_was_to_come(setup: Setup, f: Flow, now: int)
    ensures
        ({
            let after = setup.after_message(f, OrchestratorMsg::EStop, now);
            &&& after.queue.len() == 0
            &&& after.paused && after.needs_home
            &&& !after.pending_home && after.pending_gripper is None
            &&& after.last_pos == f.last_pos
            &&& after.shutting_down == f.shutting_down
        }),
{
}

/// A command that failed drops the picks and pauses, and nothing else changes.
pub proof fn law_failure_changes_nothing_else(setup: Setup, f: Flow, now: int, halted: bool)
    requires
        serves_queue(f, now),
    ensures
        after_event(setup, f, Event::Turn { now, succeeded: false, halted }) == (Flow {
            queue: Seq::empty(),
            paused: true,
            ..f
        }),
{
}

/// The loop waits for a message where there is nothing that it could do: while
/// paused, or with an empty queue. It looks again where it was running and
/// found every pick in the queue too old; these are gone then.
pub proof fn law_loop_waits_only_for_messages(setup: Setup, f: Flow, now: int, a: Action)
    requires
        setup.is_next(f, now, a),
    ensures
        a is AwaitMessage <==> !f.shutting_down && !f.pending_home && f.pending_gripper is None && (
        f.paused || f.queue.len() == 0),
        a is Again ==> !f.paused && f.queue.len() > 0 && after_action(f, now).queue.len() == 0,
        a is Park <==> f.shutting_down,
        a is Home <==> !f.shutting_down && f.pending_home,
        a is Gripper <==> !f.shutting_down && !f.pending_home && f.pending_gripper is Some,
{
}

/// Where the arm is, is known from the last move that succeeded.
pub proof fn law_last_move_is_remembered(f: Flow, cmd: RobotCommand)
    ensures
        cmd matches RobotCommand::MoveTo(p) ==> after_command(f, cmd, true) == (Flow {
            last_pos: Some(p),
            ..f
        }),
        cmd !is MoveTo ==> after_command(f, cmd, true) == f,
        after_command(f, cmd, false).last_pos == f.last_pos,
{
}

/// What the operator is told: a pause, a resumption and an E-stop are
/// confirmed by the state that they lead to, and no other message changes what
/// is shown.
pub proof fn law_state_is_published(
    setup: Setup,
    f: Flow,
    msg: OrchestratorMsg,
    now: int,
    r: Reaction,
)
    requires
        setup.reaction_to(f, msg, now, r),
    ensures
        msg is EStop ==> r.publish == Some(OrchestratorState::EStopped),
        msg is Pause ==> r.publish == Some(
            if f.needs_home {
                OrchestratorState::EStopped
            } else {
                OrchestratorState::Paused
            },
        ),
        msg is Resume ==> r.publish == Some(
            if f.needs_home {
                OrchestratorState::EStopped
            } else {
                OrchestratorState::Running
            },
        ),
        msg is Pick || msg is Home || msg is SetGripper || msg is Shutdown ==> r.publish is None,
        msg !is Pick ==> r.declined is None,
        r.error is None,
        !r.release_gripper,
{
}

/// The robot is given commands of the queue only in the state that is shown as
/// running.
pub proof fn law_only_running_serves_the_queue(f: Flow, now: int)
    requires
        crate::orchestrator::interlocked(f),
    ensures
        serves_queue(f, now) ==> f.state() == OrchestratorState::Running,
        f.state() == OrchestratorState::Running <==> !f.needs_home && !f.paused,
        f.state() == OrchestratorState::EStopped <==> f.needs_home,
{
}

// --- The workspace ---

/// A workspace is a box: it holds exactly the points that lie between its
/// bounds on all three axes, the bounds included.
pub proof fn law_workspace_is_a_box(w: WorkspaceLimits, p: Position)
    requires
        w.x_min.finite() && w.x_max.finite(),
        w.y_min.finite() && w.y_max.finite(),
        w.z_min.finite() && w.z_max.finite(),
        p.x.finite() && p.y.finite() && p.z.finite(),
    ensures
        w.holds(p) <==> {
            &&& w.x_min.units() <= p.x.units() <= w.x_max.units()
            &&& w.y_min.units() <= p.y.units() <= w.y_max.units()
            &&& w.z_min.units() <= p.z.units() <= w.z_max.units()
        },
{
    Float32::law_order_is_value(w.x_min, p.x);
    Float32::law_order_is_value(p.x, w.x_max);
    Float32::law_order_is_value(w.y_min, p.y);
    Float32::law_order_is_value(p.y, w.y_max);
    Float32::law_order_is_value(w.z_min, p.z);
    Float32::law_order_is_value(p.z, w.z_max);
}

/// No workspace holds a point that is not a number on some axis.
pub proof fn law_no_workspace_holds_a_nan(w: WorkspaceLimits, p: Position)
    requires
        p.x.nan() || p.y.nan() || p.z.nan(),
    ensures
        !w.holds(p),
{
}

/// The workspace of the robot is the one that is configured, axis by axis.
pub proof fn law_configured_workspace(r: RobotConfig, p: Position)
    requires
        r.x_min.finite() && r.x_max.finite(),
        r.y_min.finite() && r.y_max.finite(),
        r.z_min.finite() && r.z_max.finite(),
        p.x.finite() && p.y.finite() && p.z.finite(),
    ensures
        r.limits().holds(p) <==> {
            &&& r.x_min.units() <= p.x.units() <= r.x_max.units()
            &&& r.y_min.units() <= p.y.units() <= r.y_max.units()
            &&& r.z_min.units() <= p.z.units() <= r.z_max.units()
        },
{
    law_workspace_is_a_box(r.limits(), p);
}

/// The physical envelope of the robot reaches 160 millimetres from the centre
/// along X and Y, and from 200 millimetres below the top up to the top.
pub proof fn law_envelope_in_millimetres(p: Position)
    requires
        p.x.finite() && p.y.finite() && p.z.finite(),
    ensures
        WorkspaceLimits::delta_x2().holds(p) <==> {
            let mm = vstd::arithmetic::power2::pow2(149) as int;
            &&& -160 * mm <= p.x.units() <= 160 * mm
            &&& -160 * mm <= p.y.units() <= 160 * mm
            &&& -200 * mm <= p.z.units() <= 0
        },
{
    Float32::law_integers_are_exact(-160);
    Float32::law_integers_are_exact(160);
    Float32::law_integers_are_exact(-200);
    Float32::law_integers_are_exact(0);
    law_workspace_is_a_box(WorkspaceLimits::delta_x2(), p);
}

} // verus!

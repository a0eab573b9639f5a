//! What holds of the sorter whatever happens: no move leaves the workspace,
//! an E-stop leaves nothing in force and holds until the robot is homed, a
//! failure pauses, and picks are carried out whole and in order.
use crate::app_config::{
    bin_place, drops_to, entry_parses, is_bin, is_entry, is_list, is_stray_bin, list_parses,
    robot_error, sorting_error, AppConfig, Assignment, BinConfig,
};
use crate::float::{Float32, Float64};
use crate::hardware::{Position, WorkspaceLimits};
use crate::orchestrator::{
    advanced, after_action, after_command, after_home, dead_prefix, interlocked, live,
    moves_within, next_of, pick_steps, releases, rest_of, stale, Action, Flow, Group, OrchestratorMsg,
    OrchestratorState, RobotCommand, Setup,
};
use crate::text::{trimmed, trimmed_end, trimmed_start};
use crate::vision::DetectedObject;
use vstd::prelude::*;

verus! {

// --- Configuration ---

/// The default configuration breaks no rule.
pub proof fn law_default_is_valid(c: AppConfig)
    requires
        c.is_default(),
    ensures
        c.first_error(true) is None,
        is_list(c.logging.level@),
        list_parses(c.logging.level@),
{
    Float32::lemma_integers_compare(-160, 160);
    Float32::lemma_integers_compare(-160, -160);
    Float32::lemma_integers_compare(160, 160);
    Float32::lemma_integers_compare(-200, 0);
    Float32::lemma_integers_compare(-200, -200);
    Float32::lemma_integers_compare(0, 0);
    Float32::lemma_integers_compare(-200, -180);
    Float32::lemma_integers_compare(-180, 0);
    Float32::lemma_integers_compare(-200, -50);
    Float32::lemma_integers_compare(-50, 0);
    Float32::lemma_integers_compare(-180, -50);
    Float32::lemma_integers_compare(100, 0);
    Float32::lemma_integers_compare(-160, 150);
    Float32::lemma_integers_compare(150, 160);
    Float32::lemma_integers_compare(-160, 0);
    Float32::lemma_integers_compare(0, 160);
    Float32::lemma_integers_compare(-200, -100);
    Float32::lemma_integers_compare(-100, 0);
    Float32::lemma_half();
    Float64::lemma_integers_compare(0, 60);
    Float64::lemma_integers_compare(60, 255);
    Float64::lemma_integers_compare(0, 500);
    Float64::lemma_integers_compare(500, 10000);
    Float64::lemma_integers_compare(10000, 0);
    reveal_strlit("info");
    reveal_strlit("logs");
    let logs = "logs"@;
    let info = "info"@;
    assert(trimmed_start(info) == info);
    assert(trimmed_end(info) == info);
    assert forall|i: int, j: int| #[trigger] is_entry(info, ',', i, j) implies entry_parses(
        trimmed(info.subrange(i, j)),
    ) by {
        assert(i == 0 && j == 4);
        assert(info.subrange(0, 4) =~= info);
    }
    assert(trimmed_start(logs) == logs);
    assert(trimmed_end(logs) == logs);
    assert(robot_error(c.robot) is None);
    assert(sorting_error(c.robot.limits(), c.sorting) is None);
}

/// A valid configuration keeps the workspace inside the physical envelope of
/// the robot.
pub proof fn law_workspace_is_inside_the_envelope(c: AppConfig, level_parses: bool, p: Position)
    requires
        c.first_error(level_parses) is None,
        c.robot.limits().holds(p),
    ensures
        WorkspaceLimits::delta_x2().holds(p),
{
    assert(robot_error(c.robot) is None);
}

/// A valid configuration drops parts only inside the workspace.
pub proof fn law_drops_are_inside_the_workspace(
    c: AppConfig,
    level_parses: bool,
    class: Seq<char>,
)
    requires
        c.first_error(level_parses) is None,
        c.sorting.drops().contains_key(class),
    ensures
        c.robot.limits().holds(c.sorting.drops()[class]),
{
    assert(sorting_error(c.robot.limits(), c.sorting) is None);
    let bins = c.sorting.bins@;
    let limits = c.robot.limits();
    lemma_no_stray_bin(limits, bins);
    lemma_drops_within(limits, bins, c.sorting.assignments@, c.sorting.assignments@.len() as int);
}

proof fn lemma_no_stray_bin(limits: WorkspaceLimits, bins: Seq<BinConfig>)
    requires
        !exists|i: int| is_stray_bin(limits, bins, i),
    ensures
        forall|i: int| #![trigger bins[i]] 0 <= i < bins.len() ==> limits.holds(bins[i].place()),
{
    assert forall|i: int| #![trigger bins[i]] 0 <= i < bins.len() implies limits.holds(
        bins[i].place(),
    ) by {
        lemma_bins_within(limits, bins, i);
    }
}

proof fn lemma_bins_within(limits: WorkspaceLimits, bins: Seq<BinConfig>, i: int)
    requires
        !exists|i: int| is_stray_bin(limits, bins, i),
        0 <= i < bins.len(),
    ensures
        forall|j: int| #![trigger bins[j]] 0 <= j <= i ==> limits.holds(bins[j].place()),
    decreases i,
{
    if i > 0 {
        lemma_bins_within(limits, bins, i - 1);
    }
    if !limits.holds(bins[i].place()) {
        assert(is_stray_bin(limits, bins, i));
    }
}

proof fn lemma_drops_within(
    limits: WorkspaceLimits,
    bins: Seq<BinConfig>,
    assignments: Seq<Assignment>,
    n: int,
)
    requires
        forall|i: int| #![trigger bins[i]] 0 <= i < bins.len() ==> limits.holds(bins[i].place()),
    ensures
        forall|c: Seq<char>| #[trigger]
            drops_to(bins, assignments, n).contains_key(c) ==> limits.holds(
                drops_to(bins, assignments, n)[c],
            ),
    decreases n,
{
    if n > 0 {
        lemma_drops_within(limits, bins, assignments, n - 1);
        let id = assignments[n - 1].bin@;
        let before = drops_to(bins, assignments, n - 1);
        let after = drops_to(bins, assignments, n);
        if bin_place(bins, id) is Some {
            let i = choose|i: int| is_bin(bins, id, i);
            assert(is_bin(bins, id, i));
            assert(limits.holds(bins[i].place()));
        }
        assert forall|c: Seq<char>| #[trigger] after.contains_key(c) implies limits.holds(
            after[c],
        ) by {
            if !(bin_place(bins, id) is Some && c == assignments[n - 1].class@) {
                assert(before.contains_key(c));
            }
        }
    }
}

/// What an orchestrator is set up with by a configuration.
pub open spec fn setup_of(c: AppConfig) -> Setup {
    Setup {
        limits: c.robot.limits(),
        z_travel: c.robot.z_travel,
        z_pick: c.robot.z_pick,
        drops: c.sorting.drops(),
        reports_declines: false,
    }
}

/// A valid configuration makes a safe set-up.
pub proof fn law_valid_setup_is_safe(c: AppConfig, level_parses: bool)
    requires
        c.first_error(level_parses) is None,
    ensures
        setup_of(c).safe(),
{
    assert(robot_error(c.robot) is None);
    assert forall|class: Seq<char>| #[trigger]
        c.sorting.drops().contains_key(class) implies c.robot.limits().holds(
        c.sorting.drops()[class],
    ) by {
        law_drops_are_inside_the_workspace(c, level_parses, class);
    }
}

// --- One step ---

/// What an orchestrator goes through: a message comes in, or the run loop
/// takes its turn and the robot carries the command out or fails.
pub enum Event {
    Message { msg: OrchestratorMsg, now: int },
    /// `halted`: by the end of the turn the emergency stop has fired.
    Turn { now: int, succeeded: bool, halted: bool },
}

/// The commands that a turn of the run loop sets out with.
pub open spec fn issued(setup: Setup, f: Flow, now: int) -> Seq<RobotCommand> {
    if f.shutting_down {
        setup.parking(f)
    } else if f.pending_home {
        seq![RobotCommand::Home]
    } else if f.pending_gripper is Some {
        seq![RobotCommand::Gripper(f.pending_gripper->0)]
    } else if f.paused {
        Seq::empty()
    } else {
        match next_of(f.queue, now) {
            Some(cmd) => seq![cmd],
            None => Seq::empty(),
        }
    }
}

/// The next command of the queue is carried out in this turn.
pub open spec fn serves_queue(f: Flow, now: int) -> bool {
    &&& !f.shutting_down
    &&& !f.pending_home
    &&& f.pending_gripper is None
    &&& !f.paused
    &&& next_of(f.queue, now) is Some
}

/// All the commands that the robot is given in a turn: those it sets out with
/// and, where a command of the queue failed, the release of the gripper.
pub open spec fn given(
    setup: Setup,
    f: Flow,
    now: int,
    succeeded: bool,
    halted: bool,
) -> Seq<RobotCommand> {
    if serves_queue(f, now) && releases(succeeded, halted) {
        issued(setup, f, now).push(RobotCommand::Gripper(false))
    } else {
        issued(setup, f, now)
    }
}

/// The flow after an event.
pub open spec fn after_event(setup: Setup, f: Flow, e: Event) -> Flow {
    match e {
        Event::Message { msg, now } => setup.after_message(f, msg, now),
        Event::Turn { now, succeeded, .. } => {
            let taken = after_action(f, now);
            if serves_queue(f, now) {
                after_command(taken, next_of(f.queue, now)->0, succeeded)
            } else if !f.shutting_down && f.pending_home {
                after_home(taken, succeeded)
            } else {
                taken
            }
        },
    }
}

/// The flow after the first `n` events.
pub open spec fn after_events(setup: Setup, f: Flow, events: Seq<Event>, n: int) -> Flow
    decreases n,
{
    if n <= 0 {
        f
    } else {
        after_event(setup, after_events(setup, f, events, n - 1), events[n - 1])
    }
}

/// The action that the run loop takes hands the robot what is issued in its
/// turn, and nothing else.
pub proof fn law_action_issues(setup: Setup, f: Flow, now: int, a: Action)
    requires
        setup.is_next(f, now, a),
    ensures
        match a {
            Action::Park(commands) => commands@ == issued(setup, f, now),
            Action::Home => issued(setup, f, now) == seq![RobotCommand::Home],
            Action::Gripper(on) => issued(setup, f, now) == seq![RobotCommand::Gripper(on)],
            Action::Execute(cmd) => issued(setup, f, now) == seq![cmd] && serves_queue(f, now),
            Action::AwaitMessage | Action::Again => issued(setup, f, now).len() == 0,
        },
{
    if f.queue.len() == 0 {
        assert(dead_prefix(f.queue, now) == 0);
    }
}

proof fn lemma_dead_prefix(q: Seq<Group>, now: int)
    ensures
        0 <= dead_prefix(q, now) <= q.len(),
        dead_prefix(q, now) < q.len() ==> live(q[dead_prefix(q, now)], now),
        forall|i: int| #![trigger q[i]] 0 <= i < dead_prefix(q, now) ==> !live(q[i], now),
    decreases q.len(),
{
    if q.len() > 0 && !live(q[0], now) {
        let rest = q.drop_first();
        lemma_dead_prefix(rest, now);
        let k = dead_prefix(q, now);
        assert forall|i: int| #![trigger q[i]] 0 <= i < k implies !live(q[i], now) by {
            if i > 0 {
                assert(rest[i - 1] == q[i]);
            }
        }
        if k < q.len() {
            assert(rest[k - 1] == q[k]);
        }
    }
}

proof fn lemma_rest_is_safe(setup: Setup, q: Seq<Group>, now: int)
    requires
        forall|i: int| #![trigger q[i]]
            0 <= i < q.len() ==> moves_within(setup.limits, q[i].steps),
    ensures
        forall|i: int| #![trigger rest_of(q, now)[i]]
            0 <= i < rest_of(q, now).len() ==> moves_within(
                setup.limits,
                rest_of(q, now)[i].steps,
            ),
        next_of(q, now) matches Some(RobotCommand::MoveTo(p)) ==> setup.limits.holds(p),
{
    lemma_dead_prefix(q, now);
    let k = dead_prefix(q, now);
    let rest = rest_of(q, now);
    if k < q.len() {
        assert(moves_within(setup.limits, q[k].steps));
        assert forall|i: int| #![trigger rest[i]] 0 <= i < rest.len() implies moves_within(
            setup.limits,
            rest[i].steps,
        ) by {
            if i == 0 {
                let left = q[k].steps.drop_first();
                assert forall|j: int| #![trigger left[j]] 0 <= j < left.len() implies (left[j]
                    matches RobotCommand::MoveTo(p) ==> setup.limits.holds(p)) by {
                    assert(left[j] == q[k].steps[j + 1]);
                }
            } else {
                assert(rest[i] == q[k + i]);
            }
        }
        assert(q[k].steps[0] matches RobotCommand::MoveTo(p) ==> setup.limits.holds(p));
    }
}

/// Every command that is given keeps to the workspace, and no event makes
/// that untrue.
pub proof fn law_steps_stay_inside(setup: Setup, f: Flow, e: Event)
    requires
        setup.safe(),
        setup.safe_flow(f),
    ensures
        setup.safe_flow(after_event(setup, f, e)),
        e matches Event::Turn { now, succeeded, halted } ==> moves_within(
            setup.limits,
            given(setup, f, now, succeeded, halted),
        ),
{
    match e {
        Event::Message { msg, now } => {
            match msg {
                OrchestratorMsg::Pick(object) => {
                    if !f.paused && setup.accepts(object, now) {
                        let g = setup.group_for(object);
                        let p = object.world_pos->0;
                        let steps = pick_steps(
                            setup.travel_point(p),
                            setup.pick_point(p),
                            setup.drops[object.class->0@],
                        );
                        assert(g.steps == steps);
                        assert(moves_within(setup.limits, steps));
                        let q = f.queue.push(g);
                        assert forall|i: int| #![trigger q[i]] 0 <= i < q.len() implies moves_within(
                            setup.limits,
                            q[i].steps,
                        ) by {
                            if i < f.queue.len() {
                                assert(q[i] == f.queue[i]);
                            }
                        }
                    }
                },
                _ => {},
            }
        },
        Event::Turn { now, .. } => {
            lemma_rest_is_safe(setup, f.queue, now);
            if f.shutting_down {
                assert(moves_within(setup.limits, setup.parking(f)));
            }
        },
    }
}

/// However the messages and the turns of the run loop follow on one another,
/// with whatever failures, no command ever takes the robot out of the
/// configured workspace, nor out of its physical envelope.
pub proof fn law_no_move_leaves_the_workspace(
    c: AppConfig,
    level_parses: bool,
    start: Flow,
    events: Seq<Event>,
    n: int,
    now: int,
    succeeded: bool,
    halted: bool,
    i: int,
    p: Position,
)
    requires
        c.first_error(level_parses) is None,
        start.queue.len() == 0,
        start.last_pos is None,
        0 <= n <= events.len(),
        ({
            let f = after_events(setup_of(c), start, events, n);
            let commands = given(setup_of(c), f, now, succeeded, halted);
            0 <= i < commands.len() && commands[i] == RobotCommand::MoveTo(p)
        }),
    ensures
        c.robot.limits().holds(p),
        WorkspaceLimits::delta_x2().holds(p),
{
    let setup = setup_of(c);
    law_valid_setup_is_safe(c, level_parses);
    lemma_events_stay_safe(setup, start, events, n);
    let f = after_events(setup, start, events, n);
    law_steps_stay_inside(setup, f, Event::Turn { now, succeeded, halted });
    assert(moves_within(setup.limits, given(setup, f, now, succeeded, halted)));
    law_workspace_is_inside_the_envelope(c, level_parses, p);
}

proof fn lemma_events_stay_safe(setup: Setup, f: Flow, events: Seq<Event>, n: int)
    requires
        setup.safe(),
        setup.safe_flow(f),
        0 <= n <= events.len(),
    ensures
        setup.safe_flow(after_events(setup, f, events, n)),
    decreases n,
{
    if n > 0 {
        lemma_events_stay_safe(setup, f, events, n - 1);
        law_steps_stay_inside(setup, after_events(setup, f, events, n - 1), events[n - 1]);
    }
}

// --- Emergency stop ---

/// The turn homes the robot, and it succeeds.
pub open spec fn homes(f: Flow, e: Event) -> bool {
    e matches Event::Turn { succeeded, .. } && succeeded && f.pending_home && !f.shutting_down
}

/// An E-stop drops the queue and what the operator had asked for, pauses, and
/// asks for homing: nothing is given, whatever was under way.
pub proof fn law_estop_takes_hold(setup: Setup, f: Flow, now: int)
    ensures
        ({
            let after = setup.after_message(f, OrchestratorMsg::EStop, now);
            &&& after.state() == OrchestratorState::EStopped
            &&& after.queue.len() == 0
            &&& interlocked(after)
            &&& forall|at: int, succeeded: bool, halted: bool|
                (#[trigger] given(setup, after, at, succeeded, halted)).len() == 0
        }),
{
}

/// The operator asks for a homing or for the gripper.
pub open spec fn asks_for_robot(e: Event) -> bool {
    e matches Event::Message { msg, .. } && (msg is Home || msg is SetGripper)
}

/// After an E-stop nothing is fed to the robot, and the state stays E-stopped,
/// until the operator asks for a homing or for the gripper: what was asked for
/// before the stop is gone.
pub proof fn law_nothing_is_fed_after_estop(
    setup: Setup,
    f: Flow,
    stopped_at: int,
    events: Seq<Event>,
    n: int,
    now: int,
    succeeded: bool,
    halted: bool,
)
    requires
        0 <= n <= events.len(),
        forall|k: int| #![trigger events[k]] 0 <= k < n ==> !asks_for_robot(events[k]),
    ensures
        ({
            let stopped = setup.after_message(f, OrchestratorMsg::EStop, stopped_at);
            let after = after_events(setup, stopped, events, n);
            &&& after.state() == OrchestratorState::EStopped
            &&& given(setup, after, now, succeeded, halted).len() == 0
        }),
{
    let stopped = setup.after_message(f, OrchestratorMsg::EStop, stopped_at);
    lemma_quiet_lasts(setup, stopped, events, n);
}

/// E-stopped, with nothing asked for.
spec fn quiet(f: Flow) -> bool {
    f.needs_home && interlocked(f) && !f.pending_home && f.pending_gripper is None
}

proof fn lemma_quiet_lasts(setup: Setup, start: Flow, events: Seq<Event>, n: int)
    requires
        quiet(start),
        0 <= n <= events.len(),
        forall|k: int| #![trigger events[k]] 0 <= k < n ==> !asks_for_robot(events[k]),
    ensures
        quiet(after_events(setup, start, events, n)),
    decreases n,
{
    if n > 0 {
        lemma_quiet_lasts(setup, start, events, n - 1);
        assert(!asks_for_robot(events[n - 1]));
    }
}

/// While E-stopped, only a successful homing ends the state: Resume is
/// refused, picks are dropped, and nothing of the queue is carried out.
pub proof fn law_estop_holds_until_homed(setup: Setup, f: Flow, e: Event)
    requires
        interlocked(f),
    ensures
        interlocked(after_event(setup, f, e)),
        f.needs_home && !homes(f, e) ==> after_event(setup, f, e).state()
            == OrchestratorState::EStopped,
        f.needs_home && homes(f, e) ==> after_event(setup, f, e).state()
            == OrchestratorState::Paused,
        f.needs_home ==> (e matches Event::Turn { now, .. } ==> !serves_queue(f, now)),
{
}

/// Between an E-stop and the next successful homing the robot is given no
/// move, however many messages come in.
pub proof fn law_no_move_after_estop(
    setup: Setup,
    start: Flow,
    events: Seq<Event>,
    n: int,
    now: int,
    succeeded: bool,
    halted: bool,
    i: int,
)
    requires
        start.needs_home,
        interlocked(start),
        0 <= n <= events.len(),
        forall|k: int| #![trigger events[k]]
            0 <= k < n ==> !homes(after_events(setup, start, events, k), events[k]),
        ({
            let f = after_events(setup, start, events, n);
            0 <= i < given(setup, f, now, succeeded, halted).len()
        }),
    ensures
        ({
            let f = after_events(setup, start, events, n);
            &&& f.state() == OrchestratorState::EStopped
            &&& given(setup, f, now, succeeded, halted)[i] !is MoveTo
        }),
{
    lemma_estop_lasts(setup, start, events, n);
}

proof fn lemma_estop_lasts(setup: Setup, start: Flow, events: Seq<Event>, n: int)
    requires
        start.needs_home,
        interlocked(start),
        0 <= n <= events.len(),
        forall|k: int| #![trigger events[k]]
            0 <= k < n ==> !homes(after_events(setup, start, events, k), events[k]),
    ensures
        after_events(setup, start, events, n).needs_home,
        interlocked(after_events(setup, start, events, n)),
    decreases n,
{
    if n > 0 {
        lemma_estop_lasts(setup, start, events, n - 1);
        law_estop_holds_until_homed(
            setup,
            after_events(setup, start, events, n - 1),
            events[n - 1],
        );
    }
}

// --- Pausing and failure ---

/// The event is an operator's Resume.
pub open spec fn resumes(e: Event) -> bool {
    e matches Event::Message { msg, .. } && msg == OrchestratorMsg::Resume
}

/// While paused nothing is taken into the queue or out of it, and only a
/// Resume ends the pause.
pub proof fn law_pause_holds_until_resumed(setup: Setup, f: Flow, e: Event)
    requires
        f.paused,
        !resumes(e),
    ensures
        after_event(setup, f, e).paused,
        after_event(setup, f, e).queue == f.queue || after_event(setup, f, e).queue.len() == 0,
        e matches Event::Turn { now, .. } ==> !serves_queue(f, now),
{
}

/// A failed command clears the queue and pauses: nothing is tried again on
/// its own. All that the robot is given besides is the release of the gripper,
/// and not even that once the emergency stop has fired.
pub proof fn law_failure_clears_and_pauses(setup: Setup, f: Flow, now: int, halted: bool)
    requires
        serves_queue(f, now),
    ensures
        ({
            let after = after_event(setup, f, Event::Turn { now, succeeded: false, halted });
            after.paused && after.queue.len() == 0
        }),
        ({
            let cmd = next_of(f.queue, now)->0;
            given(setup, f, now, false, halted) == if halted {
                seq![cmd]
            } else {
                seq![cmd, RobotCommand::Gripper(false)]
            }
        }),
{
    let cmd = next_of(f.queue, now)->0;
    assert(seq![cmd].push(RobotCommand::Gripper(false)) =~= seq![
        cmd,
        RobotCommand::Gripper(false),
    ]);
}

/// A pick that comes in while paused changes nothing.
pub proof fn law_paused_pick_is_dropped(
    setup: Setup,
    f: Flow,
    object: DetectedObject,
    now: int,
)
    requires
        f.paused,
    ensures
        setup.after_message(f, OrchestratorMsg::Pick(object), now) == f,
{
}

/// An object that is not recognised, or whose class has no bin, is left on the
/// belt: nothing is queued for it.
pub proof fn law_unsortable_object_is_left(
    setup: Setup,
    f: Flow,
    object: DetectedObject,
    now: int,
)
    requires
        object.class matches Some(class) ==> !setup.drops.contains_key(class@),
    ensures
        setup.after_message(f, OrchestratorMsg::Pick(object), now) == f,
        !stale(object, now) ==> setup.declines(object, now) is None,
{
}

// --- The queue ---

/// No group starts from the moment on at which its object is too old: what
/// comes next is of a group under way, or of one whose object is still fresh.
pub proof fn law_no_stale_start(q: Seq<Group>, now: int)
    ensures
        next_of(q, now) matches Some(cmd) ==> {
            let g = q[dead_prefix(q, now)];
            cmd == g.steps[0] && (g.started || now < g.expiry)
        },
{
    lemma_dead_prefix(q, now);
}

/// Once started, a group goes on to its end: its next command is the next
/// command at any time, expired or not.
pub proof fn law_started_group_goes_on(q: Seq<Group>, now: int)
    requires
        q.len() > 0,
        q[0].started,
        q[0].steps.len() > 0,
    ensures
        next_of(q, now) == Some(q[0].steps[0]),
        rest_of(q, now) == q.update(0, advanced(q[0])),
{
    assert(live(q[0], now));
    assert(q.skip(0) =~= q);
}

/// A group that has expired before it started is dropped whole: the queue
/// goes on as if it had never been there.
pub proof fn law_expired_group_is_dropped_whole(q: Seq<Group>, now: int)
    requires
        q.len() > 0,
        !q[0].started,
        now >= q[0].expiry,
    ensures
        next_of(q, now) == next_of(q.drop_first(), now),
        rest_of(q, now) == rest_of(q.drop_first(), now),
{
    let rest = q.drop_first();
    assert(!live(q[0], now));
    lemma_dead_prefix(rest, now);
    let k = dead_prefix(rest, now);
    assert(dead_prefix(q, now) == k + 1);
    if k < rest.len() {
        assert(rest[k] == q[k + 1]);
        assert(rest.skip(k) =~= q.skip(k + 1));
    }
}

/// All the commands of a queue, one after the other.
pub open spec fn commands_of(q: Seq<Group>) -> Seq<RobotCommand>
    decreases q.len(),
{
    if q.len() == 0 {
        Seq::empty()
    } else {
        q[0].steps + commands_of(q.drop_first())
    }
}

/// Where no group is to be dropped, commands come out in the order in which
/// they went in.
pub proof fn law_first_in_first_out(q: Seq<Group>, now: int)
    requires
        forall|i: int| #![trigger q[i]] 0 <= i < q.len() ==> q[i].started || now < q[i].expiry,
    ensures
        next_of(q, now) is None <==> commands_of(q).len() == 0,
        next_of(q, now) matches Some(cmd) ==> cmd == commands_of(q)[0] && commands_of(
            rest_of(q, now),
        ) == commands_of(q).drop_first(),
    decreases q.len(),
{
    if q.len() > 0 {
        let rest = q.drop_first();
        if q[0].steps.len() == 0 {
            assert forall|i: int| #![trigger rest[i]] 0 <= i < rest.len() implies rest[i].started
                || now < rest[i].expiry by {
                assert(rest[i] == q[i + 1]);
            }
            law_first_in_first_out(rest, now);
            assert(commands_of(q) =~= commands_of(rest));
            lemma_dead_prefix(rest, now);
            let k = dead_prefix(rest, now);
            assert(dead_prefix(q, now) == k + 1);
            if k < rest.len() {
                assert(rest[k] == q[k + 1]);
                assert(rest.skip(k) =~= q.skip(k + 1));
            }
        } else {
            assert(live(q[0], now));
            assert(q.skip(0) =~= q);
            let after = rest_of(q, now);
            assert(after.drop_first() =~= rest);
            assert(commands_of(after) =~= commands_of(q).drop_first());
        }
    }
}

/// A freshly accepted pick goes to the end of the queue and leaves what is
/// ahead of it as it was.
pub proof fn law_pick_goes_last(
    setup: Setup,
    f: Flow,
    object: DetectedObject,
    now: int,
)
    requires
        !f.paused,
        setup.accepts(object, now),
    ensures
        ({
            let q = setup.after_message(f, OrchestratorMsg::Pick(object), now).queue;
            &&& q.len() == f.queue.len() + 1
            &&& q.drop_last() == f.queue
            &&& q.last() == setup.group_for(object)
        }),
{
    let q = f.queue.push(setup.group_for(object));
    assert(q.drop_last() =~= f.queue);
}

} // verus!

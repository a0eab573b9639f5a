//! Scheduling, routing and the run loop.
use deltax2sort::app_config::{AppConfig, Assignment, BinConfig};
use deltax2sort::float::Float32;
use deltax2sort::hardware::{MockRobot, MockRobotCommand, Position, WorkspaceLimits};
use deltax2sort::orchestrator::{
    gripper_failure, Action, InstructionQueue, Orchestrator, OrchestratorMsg, OrchestratorState,
    PickSequence, RobotCommand, TrajectoryPlanner, PICK_TTL,
};
use deltax2sort::vision::{DetectedObject, Rect};

const SECOND: u64 = 1_000_000_000;

/// When every test object was seen.
const SEEN: u64 = 100 * SECOND;

/// The class every test object carries.
const PART: &str = "part";

fn f(x: f32) -> Float32 {
    Float32 { bits: x.to_bits() }
}

fn at(x: f32, y: f32, z: f32) -> Position {
    Position { x: f(x), y: f(y), z: f(z) }
}

fn origin() -> Position {
    at(0.0, 0.0, 0.0)
}

fn bin(id: &str, x: f32, y: f32, z: f32) -> BinConfig {
    BinConfig { id: id.to_string(), x: f(x), y: f(y), z: f(z) }
}

fn assign(class: &str, bin: &str) -> Assignment {
    Assignment { class: class.to_string(), bin: bin.to_string() }
}

/// Config with a single bin "bin-a" at (150, 0, -100) and the `PART` class
/// assigned to it.
fn test_config() -> AppConfig {
    let mut cfg = AppConfig::default();
    cfg.sorting.bins = vec![bin("bin-a", 150.0, 0.0, -100.0)];
    cfg.sorting.assignments = vec![assign(PART, "bin-a")];
    cfg
}

fn object_at(x: f32, y: f32) -> DetectedObject {
    object_of_class(x, y, Some(PART.to_string()))
}

fn object_of_class(x: f32, y: f32, class: Option<String>) -> DetectedObject {
    DetectedObject {
        id: 1,
        rect: Rect::new(0, 0, 10, 10),
        world_pos: Some(at(x, y, 0.0)),
        class,
        confidence: f(0.0),
        timestamp: 0,
        seen_at: SEEN,
    }
}

fn test_orchestrator() -> Orchestrator {
    Orchestrator::new(&test_config())
}

// Config-default pick geometry for object_at(50, 0): z_travel = -50,
// z_pick = -180, drop = (150, 0, -100).
fn travel_50() -> Position {
    at(50.0, 0.0, -50.0)
}

fn pick_50() -> Position {
    at(50.0, 0.0, -180.0)
}

fn drop_pos() -> Position {
    at(150.0, 0.0, -100.0)
}

#[test]
fn pick_sequence_commands_the_robot_in_order() {
    let mut orch = test_orchestrator();
    let mut robot = MockRobot::new();
    orch.handle_message(OrchestratorMsg::Resume, SEEN);
    orch.schedule_pick(object_at(50.0, 0.0), SEEN + SECOND);
    // Drain the queue through the robot (the run loop, minus timing/locks).
    while let Some(cmd) = orch.queue.next_command(SEEN + SECOND) {
        robot.execute(cmd).unwrap();
    }
    let travel = Position { z: orch.z_travel, ..at(50.0, 0.0, 0.0) };
    let pick = Position { z: orch.z_pick, ..at(50.0, 0.0, 0.0) };
    assert_eq!(
        *robot.command_log(),
        vec![
            MockRobotCommand::MoveTo(travel),      // approach above
            MockRobotCommand::MoveTo(pick),        // descend
            MockRobotCommand::Gripper(true),       // grab (Wait is not a robot command)
            MockRobotCommand::MoveTo(travel),      // lift
            MockRobotCommand::MoveTo(drop_pos()),  // to the assigned bin (bin-a)
            MockRobotCommand::Gripper(false),      // release over the drop
        ],
    );
}

#[test]
fn intercept_upstream_object_is_reachable() {
    // Belt moves toward +Y at 100 mm/s; object 100 mm upstream of the
    // pick line arrives in 1 s; robot needs 50/250 = 0.2 s.
    let planner = TrajectoryPlanner::new(f(100.0), f(250.0));
    let (x, y) = planner
        .calculate_intercept(origin(), &object_at(50.0, -100.0))
        .expect("object should be interceptable");
    // XY only — no z is returned (the pick height comes from config, not
    // from vision's z = 0).
    assert_eq!(x, f(50.0));
    assert_eq!(y, f(0.0));
}

#[test]
fn intercept_object_past_pick_line_is_none() {
    let planner = TrajectoryPlanner::new(f(100.0), f(250.0));
    assert!(planner
        .calculate_intercept(origin(), &object_at(50.0, 100.0))
        .is_none());
}

#[test]
fn intercept_with_stopped_belt_is_none() {
    let planner = TrajectoryPlanner::new(f(0.0), f(250.0));
    assert!(planner
        .calculate_intercept(origin(), &object_at(50.0, -100.0))
        .is_none());
}

#[test]
fn intercept_unreachable_in_time_is_none() {
    // Object arrives at the line in 0.1 s but the robot is 320 mm away.
    let planner = TrajectoryPlanner::new(f(100.0), f(250.0));
    let far_robot = at(-160.0, 0.0, 0.0);
    assert!(planner
        .calculate_intercept(far_robot, &object_at(160.0, -10.0))
        .is_none());
}

#[test]
fn intercept_object_without_world_pos_is_none() {
    let planner = TrajectoryPlanner::new(f(100.0), f(250.0));
    let mut obj = object_at(0.0, -100.0);
    obj.world_pos = None;
    assert!(planner.calculate_intercept(origin(), &obj).is_none());
}

#[test]
fn intercept_follows_the_sign_of_the_belt_speed() {
    // Toward -Y: what is at +Y is still to come.
    let planner = TrajectoryPlanner::new(f(-100.0), f(250.0));
    assert_eq!(
        planner.calculate_intercept(origin(), &object_at(50.0, 100.0)),
        Some((f(50.0), f(0.0)))
    );
    assert!(planner.calculate_intercept(origin(), &object_at(50.0, -100.0)).is_none());
    // A belt that stands still backwards stands still.
    let planner = TrajectoryPlanner::new(f(-0.0), f(250.0));
    assert!(planner.calculate_intercept(origin(), &object_at(50.0, -100.0)).is_none());
}

#[test]
fn the_planner_is_set_up_from_the_configuration() {
    let orch = test_orchestrator();
    assert_eq!(orch.planner.conveyor_speed_mm_s, f(100.0));
    assert_eq!(orch.planner.robot_speed_mm_s, f(15000.0 / 60.0));
    assert_eq!(orch.planner.pick_line_y, f(0.0));
}

#[test]
fn fresh_pick_is_scheduled() {
    let mut orch = test_orchestrator();
    // 1 s old: within the limit.
    orch.schedule_pick(object_at(50.0, 0.0), SEEN + SECOND);
    assert_eq!(orch.queue.len(), 7, "full pick-and-place sequence queued");
}

#[test]
fn stale_pick_is_dropped() {
    let mut orch = test_orchestrator();
    // 4 s old: past the 3 s limit — the belt has moved on.
    orch.schedule_pick(object_at(50.0, 0.0), SEEN + 4 * SECOND);
    assert!(orch.queue.is_empty(), "stale pick must not be queued");
}

#[test]
fn a_stale_pick_signals_a_decline_and_a_fresh_one_does_not() {
    let mut orch = test_orchestrator();
    orch.set_declined_sink();

    // Fresh pick: scheduled, no decline signalled.
    let declined = orch.schedule_pick(object_at(50.0, 0.0), SEEN + SECOND);
    assert!(declined.is_none(), "a fresh pick must not signal a decline");
    assert_eq!(orch.queue.len(), 7);

    // Stale pick (object id 1): dropped AND signalled so the track re-arms.
    let declined = orch.schedule_pick(object_at(50.0, 0.0), SEEN + 4 * SECOND);
    assert_eq!(declined, Some(1), "a stale pick signals a decline");
}

#[test]
fn without_a_sink_no_decline_is_signalled() {
    let mut orch = test_orchestrator();
    assert_eq!(orch.schedule_pick(object_at(50.0, 0.0), SEEN + 4 * SECOND), None);
    let r = orch.handle_message(OrchestratorMsg::Resume, SEEN);
    assert_eq!(r.publish, Some(OrchestratorState::Running));
    let r = orch.handle_message(OrchestratorMsg::Pick(object_at(50.0, 0.0)), SEEN + 4 * SECOND);
    assert_eq!(r.declined, None);
    orch.set_declined_sink();
    let r = orch.handle_message(OrchestratorMsg::Pick(object_at(50.0, 0.0)), SEEN + 4 * SECOND);
    assert_eq!(r.declined, Some(1));
}

#[test]
fn unassigned_or_unrecognised_pick_does_not_signal_a_decline() {
    let mut orch = test_orchestrator();
    orch.set_declined_sink();
    // Unrecognised object: dropped (catch bin) but NOT retryable.
    let declined = orch.schedule_pick(object_of_class(50.0, 0.0, None), SEEN + SECOND);
    assert!(declined.is_none(), "an unsortable object must not be re-armed");
}

#[test]
fn unrecognised_object_is_not_scheduled() {
    // class None → not sorted, rides the belt to the catch bin.
    let mut orch = test_orchestrator();
    orch.schedule_pick(object_of_class(50.0, 0.0, None), SEEN + SECOND);
    assert!(orch.queue.is_empty(), "unrecognised object must not be picked");
}

#[test]
fn recognised_but_unassigned_class_is_not_scheduled() {
    // Known class, but no bin assigned to it → also passes to the catch bin.
    let mut orch = test_orchestrator();
    let object = object_of_class(50.0, 0.0, Some("no-bin-for-this".into()));
    orch.schedule_pick(object, SEEN + SECOND);
    assert!(
        orch.queue.is_empty(),
        "a class with no bin assignment must not be picked"
    );
}

#[test]
fn objects_route_to_their_assigned_bin() {
    // Two classes → two different bins.
    let mut cfg = AppConfig::default();
    cfg.sorting.bins = vec![
        bin("left", -120.0, 0.0, -100.0),
        bin("right", 120.0, 0.0, -100.0),
    ];
    cfg.sorting.assignments = vec![assign("red", "left"), assign("blue", "right")];
    let mut orch = Orchestrator::new(&cfg);

    orch.schedule_pick(object_of_class(20.0, 0.0, Some("red".into())), SEEN + SECOND);
    // The 6th command (index 5) is the drop move.
    let red_drop = drop_move(&mut orch);
    assert_eq!(red_drop, at(-120.0, 0.0, -100.0));

    orch.schedule_pick(object_of_class(20.0, 0.0, Some("blue".into())), SEEN + SECOND);
    let blue_drop = drop_move(&mut orch);
    assert_eq!(blue_drop, at(120.0, 0.0, -100.0));
}

/// Drain a scheduled pick sequence and return its drop-move target (the
/// second-to-last command; the last is the gripper release).
fn drop_move(orch: &mut Orchestrator) -> Position {
    let mut moves = Vec::new();
    while let Some(cmd) = orch.queue.next_command(SEEN + SECOND) {
        if let RobotCommand::MoveTo(p) = cmd {
            moves.push(p);
        }
    }
    // moves: travel, pick, travel(lift), drop → the last MoveTo is the drop.
    *moves.last().expect("a pick sequence has move commands")
}

#[test]
fn pick_while_paused_is_dropped() {
    let mut orch = test_orchestrator();
    orch.handle_message(OrchestratorMsg::Pause, SEEN);
    orch.handle_message(OrchestratorMsg::Pick(object_at(50.0, 0.0)), SEEN);
    assert!(orch.queue.is_empty(), "paused pick must not be queued");
    // A fresh pick after Resume goes through.
    orch.handle_message(OrchestratorMsg::Resume, SEEN);
    orch.handle_message(OrchestratorMsg::Pick(object_at(50.0, 0.0)), SEEN);
    assert_eq!(orch.queue.len(), 7);
}

#[test]
fn orchestrator_starts_paused_so_boot_picks_cannot_move_the_robot() {
    let mut orch = test_orchestrator();
    assert_eq!(orch.state(), OrchestratorState::Paused);
    // A pick arriving before the operator pressed Start is dropped.
    orch.handle_message(OrchestratorMsg::Pick(object_at(50.0, 0.0)), SEEN);
    assert!(orch.queue.is_empty(), "no motion before operator Start");
    // Operator Start (Resume) enables picking.
    orch.handle_message(OrchestratorMsg::Resume, SEEN);
    assert_eq!(orch.state(), OrchestratorState::Running);
}

#[test]
fn estop_refuses_resume_until_home_succeeds() {
    let mut orch = test_orchestrator();
    orch.handle_message(OrchestratorMsg::Resume, SEEN);
    orch.handle_message(OrchestratorMsg::EStop, SEEN);
    assert_eq!(orch.state(), OrchestratorState::EStopped);
    // Resume is refused while re-home is pending.
    orch.handle_message(OrchestratorMsg::Resume, SEEN);
    assert_eq!(orch.state(), OrchestratorState::EStopped);
    assert!(orch.paused, "must stay paused after refused Resume");
    // Home request is registered; simulate the run loop completing it.
    orch.handle_message(OrchestratorMsg::Home, SEEN);
    assert!(orch.pending_home);
    assert!(matches!(orch.next_action(SEEN), Action::Home));
    orch.finish_home(Ok(()));
    orch.handle_message(OrchestratorMsg::Resume, SEEN);
    assert_eq!(orch.state(), OrchestratorState::Running);
}

#[test]
fn estop_forgets_what_was_asked_before_it() {
    let mut orch = test_orchestrator();
    orch.handle_message(OrchestratorMsg::Resume, SEEN);
    orch.handle_message(OrchestratorMsg::Home, SEEN);
    orch.handle_message(OrchestratorMsg::SetGripper(true), SEEN);
    orch.handle_message(OrchestratorMsg::EStop, SEEN);
    assert!(!orch.pending_home);
    assert_eq!(orch.pending_gripper, None);
    for msg in [OrchestratorMsg::Resume, OrchestratorMsg::Pause] {
        orch.handle_message(msg, SEEN);
        assert!(matches!(orch.next_action(SEEN), Action::AwaitMessage));
        assert_eq!(orch.state(), OrchestratorState::EStopped);
    }
    // What is asked for after the stop is carried out.
    orch.handle_message(OrchestratorMsg::SetGripper(false), SEEN);
    assert!(matches!(orch.next_action(SEEN), Action::Gripper(false)));
    orch.handle_message(OrchestratorMsg::Home, SEEN);
    assert!(matches!(orch.next_action(SEEN), Action::Home));
}

#[test]
fn a_halted_robot_is_not_asked_to_release() {
    for (result, halted, release) in [
        (Ok(()), false, false),
        (Ok(()), true, false),
        (Err("stall".to_string()), false, true),
        (Err("emergency stop".to_string()), true, false),
    ] {
        let failed = result.is_err();
        let mut orch = test_orchestrator();
        orch.handle_message(OrchestratorMsg::Resume, SEEN);
        orch.handle_message(OrchestratorMsg::Pick(object_at(50.0, 0.0)), SEEN);
        let Action::Execute(cmd) = orch.next_action(SEEN) else {
            panic!("a command was queued");
        };
        let r = orch.finish_command(cmd, result, halted);
        assert_eq!(r.release_gripper, release);
        assert_eq!((orch.paused, orch.queue.is_empty()), (failed, failed));
    }
}

#[test]
fn a_failed_home_keeps_the_estop_in_force() {
    let mut orch = test_orchestrator();
    orch.handle_message(OrchestratorMsg::EStop, SEEN);
    orch.handle_message(OrchestratorMsg::Home, SEEN);
    assert!(matches!(orch.next_action(SEEN), Action::Home));
    let r = orch.finish_home(Err("no answer".to_string()));
    assert_eq!(r.error.as_deref(), Some("Home failed: no answer"));
    assert_eq!(r.publish, Some(OrchestratorState::EStopped));
    assert!(matches!(orch.next_action(SEEN), Action::AwaitMessage));
    orch.handle_message(OrchestratorMsg::Resume, SEEN);
    assert_eq!(orch.state(), OrchestratorState::EStopped);
}

#[test]
fn state_watch_publishes_confirmed_transitions() {
    let mut orch = test_orchestrator();
    assert_eq!(orch.state(), OrchestratorState::Paused);
    let r = orch.handle_message(OrchestratorMsg::Resume, SEEN);
    assert_eq!(r.publish, Some(OrchestratorState::Running));
    let r = orch.handle_message(OrchestratorMsg::EStop, SEEN);
    assert_eq!(r.publish, Some(OrchestratorState::EStopped));
}

#[test]
fn shutdown_records_last_position_and_parks() {
    let mut orch = test_orchestrator();
    // A successful move records where the arm is.
    let pos = Position { z: orch.z_pick, ..at(40.0, 20.0, 0.0) };
    orch.finish_command(RobotCommand::MoveTo(pos), Ok(()), false);
    assert_eq!(orch.last_pos, Some(pos));
    // The message flags the loop; park raises to z_travel best-effort.
    orch.handle_message(OrchestratorMsg::Shutdown, SEEN);
    assert!(orch.shutting_down);
    assert_eq!(
        orch.park_for_shutdown(),
        vec![RobotCommand::Gripper(false), RobotCommand::MoveTo(at(40.0, 20.0, -50.0))]
    );
}

#[test]
fn shutdown_while_estopped_skips_park() {
    let mut orch = test_orchestrator();
    orch.handle_message(OrchestratorMsg::EStop, SEEN);
    assert!(orch.needs_home);
    // Post-M112 the robot would ignore commands: park must return without
    // issuing any (best-effort, non-blocking shutdown).
    assert!(orch.park_for_shutdown().is_empty());
}

#[test]
fn parking_from_an_unknown_place_only_releases() {
    assert_eq!(
        test_orchestrator().park_for_shutdown(),
        vec![RobotCommand::Gripper(false)]
    );
}

#[test]
fn manual_gripper_toggle_is_registered_even_while_paused() {
    let mut orch = test_orchestrator();
    assert!(orch.pending_gripper.is_none());
    // Paused (default) must not block the recovery toggle.
    orch.handle_message(OrchestratorMsg::SetGripper(false), SEEN);
    assert_eq!(orch.pending_gripper, Some(false));
    // A later request overrides the pending one.
    orch.handle_message(OrchestratorMsg::SetGripper(true), SEEN);
    assert_eq!(orch.pending_gripper, Some(true));
}

#[test]
fn report_error_reaches_the_operator_banner_channel() {
    let mut orch = test_orchestrator();
    // Starts empty so a fresh boot shows no banner.
    let r = orch.handle_message(OrchestratorMsg::Resume, SEEN);
    assert!(r.error.is_none());
    let r = orch.finish_command(RobotCommand::Home, Err("boom".to_string()), false);
    assert_eq!(
        r.error.as_deref(),
        Some("Robot command failed: boom. Sorting paused.")
    );
}

#[test]
fn gripper_failures_are_told_by_their_verb() {
    assert_eq!(gripper_failure(true, "jammed"), "Gripper engage failed: jammed");
    assert_eq!(gripper_failure(false, "jammed"), "Gripper release failed: jammed");
}

fn sequence(object_id: u64, expiry: u64, steps: Vec<RobotCommand>) -> PickSequence {
    PickSequence::new(object_id, expiry as u128, steps)
}

#[test]
fn instruction_queue_fifo_and_clear() {
    let now = SEEN;
    let far = now + 60 * SECOND;
    let mut q = InstructionQueue::new();
    assert!(q.is_empty());
    q.push_sequence(sequence(1, far, vec![RobotCommand::Home, RobotCommand::Gripper(true)]));
    q.push_sequence(sequence(2, far, vec![RobotCommand::Gripper(false)]));
    assert_eq!(q.len(), 3, "total commands across groups");
    // FIFO across and within groups.
    assert!(matches!(q.next_command(now), Some(RobotCommand::Home)));
    assert!(matches!(q.next_command(now), Some(RobotCommand::Gripper(true))));
    assert!(matches!(q.next_command(now), Some(RobotCommand::Gripper(false))));
    assert!(q.next_command(now).is_none());
    q.push_sequence(sequence(3, far, vec![RobotCommand::Home]));
    q.clear();
    assert!(q.next_command(now).is_none() && q.is_empty());
}

#[test]
fn expired_sequence_is_dropped_before_it_starts() {
    // Enqueued fresh, but by execution time the limit has passed: the whole
    // sequence is dropped, not run onto belt the object has left.
    let mut orch = test_orchestrator();
    orch.schedule_pick(object_at(50.0, 0.0), SEEN + SECOND);
    assert_eq!(orch.queue.len(), 7);
    assert!(
        orch.queue.next_command(SEEN + 5 * SECOND).is_none(),
        "an expired-before-start sequence must be dropped whole"
    );
    assert!(orch.queue.is_empty());
}

#[test]
fn a_started_sequence_is_never_dropped_mid_flight() {
    // Once the first command is taken, later expiry must NOT abort the rest
    // (the gripper may be holding a part).
    let mut orch = test_orchestrator();
    orch.schedule_pick(object_at(50.0, 0.0), SEEN + SECOND);
    // First command taken while fresh → group started.
    assert!(orch.queue.next_command(SEEN + SECOND).is_some());
    // The limit passes mid-sequence: the remaining commands still run.
    assert!(
        orch.queue.next_command(SEEN + 5 * SECOND).is_some(),
        "a started sequence runs to completion despite expiry"
    );
}

#[test]
fn expired_group_is_skipped_to_reach_a_still_valid_one() {
    let now = SEEN;
    let mut q = InstructionQueue::new();
    // First group already expired, second still valid.
    q.push_sequence(sequence(
        1,
        now - SECOND,
        vec![RobotCommand::MoveTo(origin())],
    ));
    q.push_sequence(sequence(
        2,
        now + 60 * SECOND,
        vec![RobotCommand::Gripper(true)],
    ));
    // The expired group is dropped whole; the next command comes from the
    // still-valid group.
    assert!(matches!(q.next_command(now), Some(RobotCommand::Gripper(true))));
    assert!(q.next_command(now).is_none());
}

#[test]
fn the_age_limit_is_exact() {
    let mut orch = test_orchestrator();
    orch.schedule_pick(object_at(50.0, 0.0), SEEN + PICK_TTL);
    assert_eq!(orch.queue.len(), 7, "three seconds old is not too old");
    assert!(orch.queue.next_command(SEEN + PICK_TTL).is_none(), "but it must not start any more");
    orch.schedule_pick(object_at(50.0, 0.0), SEEN + PICK_TTL);
    assert!(orch.queue.next_command(SEEN + PICK_TTL - 1).is_some());
    orch.queue.clear();
    orch.schedule_pick(object_at(50.0, 0.0), SEEN + PICK_TTL + 1);
    assert!(orch.queue.is_empty());
    // Seen after now: not stale.
    orch.schedule_pick(object_at(50.0, 0.0), 0);
    assert_eq!(orch.queue.len(), 7);
}

#[test]
fn picks_out_of_reach_are_skipped() {
    let mut orch = test_orchestrator();
    for (x, y) in [(161.0, 0.0), (0.0, -160.5), (f32::NAN, 0.0), (0.0, f32::INFINITY)] {
        orch.schedule_pick(object_at(x, y), SEEN);
        assert!(orch.queue.is_empty(), "({x}, {y})");
    }
    orch.schedule_pick(object_at(160.0, -160.0), SEEN);
    assert_eq!(orch.queue.len(), 7);
}

// --- The run loop ---

/// A robot that the run loop drives.
trait Robot {
    fn carry_out(&mut self, cmd: RobotCommand) -> Result<(), String>;
}

impl Robot for MockRobot {
    fn carry_out(&mut self, cmd: RobotCommand) -> Result<(), String> {
        self.execute(cmd).map_err(|e| format!("{e:?}"))
    }
}

/// A robot whose moves always fail.
struct FailingRobot {
    log: Vec<MockRobotCommand>,
}

impl Robot for FailingRobot {
    fn carry_out(&mut self, cmd: RobotCommand) -> Result<(), String> {
        match cmd {
            RobotCommand::MoveTo(_) => {
                return Err("simulated hardware move failure".to_string())
            }
            RobotCommand::Gripper(on) => self.log.push(MockRobotCommand::Gripper(on)),
            RobotCommand::Home => self.log.push(MockRobotCommand::Home),
            RobotCommand::Wait(_) => {}
        }
        Ok(())
    }
}

/// What the loop has told the outside.
struct Told {
    state: OrchestratorState,
    error: Option<String>,
}

/// Runs the loop on `msgs`, all of which have arrived when it starts, until
/// it would block; what it told by then, and whether it left by itself.
fn run_loop(orch: &mut Orchestrator, robot: &mut dyn Robot, msgs: Vec<OrchestratorMsg>, told: &mut Told) -> bool {
    for msg in msgs {
        let r = orch.handle_message(msg, SEEN);
        if let Some(state) = r.publish {
            told.state = state;
        }
    }
    loop {
        let r = match orch.next_action(SEEN) {
            Action::Park(commands) => {
                for cmd in commands {
                    let _ = robot.carry_out(cmd);
                }
                return true;
            }
            Action::Home => {
                let result = robot.carry_out(RobotCommand::Home);
                orch.finish_home(result)
            }
            Action::Gripper(on) => {
                let _ = robot.carry_out(RobotCommand::Gripper(on));
                continue;
            }
            Action::AwaitMessage => return false,
            Action::Again => continue,
            Action::Execute(cmd) => {
                let result = robot.carry_out(cmd);
                orch.finish_command(cmd, result, false)
            }
        };
        if r.release_gripper {
            let _ = robot.carry_out(RobotCommand::Gripper(false));
        }
        if let Some(state) = r.publish {
            told.state = state;
        }
        if r.error.is_some() {
            told.error = r.error;
        }
    }
}

/// Runs a fresh orchestrator on `msgs`.
fn run_with(robot: &mut dyn Robot, msgs: Vec<OrchestratorMsg>) -> Told {
    let mut orch = test_orchestrator();
    let mut told = Told { state: orch.state(), error: None };
    run_loop(&mut orch, robot, msgs, &mut told);
    told
}

#[test]
fn run_loop_executes_a_full_pick_end_to_end() {
    let mut robot = MockRobot::new();
    let told = run_with(
        &mut robot,
        vec![
            OrchestratorMsg::Resume,
            OrchestratorMsg::Pick(object_at(50.0, 0.0)),
        ],
    );
    assert_eq!(
        *robot.command_log(),
        vec![
            MockRobotCommand::MoveTo(travel_50()), // approach above
            MockRobotCommand::MoveTo(pick_50()),   // descend (Wait is not a robot command)
            MockRobotCommand::Gripper(true),       // grab
            MockRobotCommand::MoveTo(travel_50()), // lift
            MockRobotCommand::MoveTo(drop_pos()),  // carry to drop
            MockRobotCommand::Gripper(false),      // release
        ],
    );
    assert_eq!(told.state, OrchestratorState::Running);
}

#[test]
fn run_loop_drops_pick_while_paused() {
    // Default state is Paused: a boot-time pick must not move the robot.
    let mut robot = MockRobot::new();
    let told = run_with(&mut robot, vec![OrchestratorMsg::Pick(object_at(50.0, 0.0))]);
    assert!(
        robot.command_log().is_empty(),
        "paused pick must command the robot nothing"
    );
    assert_eq!(told.state, OrchestratorState::Paused);
}

#[test]
fn run_loop_pause_drops_then_resume_executes() {
    let mut robot = MockRobot::new();
    run_with(
        &mut robot,
        vec![
            OrchestratorMsg::Resume,
            OrchestratorMsg::Pause,
            OrchestratorMsg::Pick(object_at(10.0, 0.0)), // dropped while paused
            OrchestratorMsg::Resume,
            OrchestratorMsg::Pick(object_at(50.0, 0.0)), // this one runs
        ],
    );
    let cmds = robot.command_log();
    assert_eq!(
        cmds.len(),
        6,
        "only the pick after the second Resume should run, got {cmds:?}"
    );
    assert_eq!(cmds[0], MockRobotCommand::MoveTo(travel_50()));
}

#[test]
fn run_loop_estop_preempts_queued_commands() {
    // Pick then E-stop arrive in the same drain: the scheduled sequence is
    // cleared before a single command is executed.
    let mut robot = MockRobot::new();
    let told = run_with(
        &mut robot,
        vec![
            OrchestratorMsg::Resume,
            OrchestratorMsg::Pick(object_at(50.0, 0.0)),
            OrchestratorMsg::EStop,
        ],
    );
    assert!(
        robot.command_log().is_empty(),
        "E-stop must drop the queued pick before it reaches the robot"
    );
    assert_eq!(told.state, OrchestratorState::EStopped);
}

#[test]
fn run_loop_estop_drops_a_pending_home_and_gripper() {
    let mut robot = MockRobot::new();
    let told = run_with(
        &mut robot,
        vec![
            OrchestratorMsg::Resume,
            OrchestratorMsg::Home,
            OrchestratorMsg::SetGripper(true),
            OrchestratorMsg::EStop,
        ],
    );
    assert!(
        robot.command_log().is_empty(),
        "nothing asked for before the E-stop may reach the robot"
    );
    assert_eq!(told.state, OrchestratorState::EStopped);
}

#[test]
fn run_loop_command_failure_clears_queue_and_pauses() {
    let mut robot = FailingRobot { log: Vec::new() };
    let told = run_with(
        &mut robot,
        vec![
            OrchestratorMsg::Resume,
            OrchestratorMsg::Pick(object_at(50.0, 0.0)),
        ],
    );
    // The first MoveTo fails: the queue is cleared (no later pick command
    // runs) and only the best-effort gripper release reaches the robot.
    assert_eq!(robot.log, vec![MockRobotCommand::Gripper(false)]);
    assert_eq!(told.state, OrchestratorState::Paused);
    assert!(
        told.error.as_deref().is_some_and(|m| m.contains("failed")),
        "the operator banner must report the failure"
    );
}

#[test]
fn run_loop_home_clears_estop_state() {
    // E-stop, then operator Home: Home runs even though we are paused and
    // E-stopped, and clears the E-stop interlock.
    let mut robot = MockRobot::new();
    let told = run_with(
        &mut robot,
        vec![
            OrchestratorMsg::Resume,
            OrchestratorMsg::EStop,
            OrchestratorMsg::Home,
        ],
    );
    assert_eq!(
        *robot.command_log(),
        vec![MockRobotCommand::Home],
        "home must run as the E-stop recovery action"
    );
    assert_eq!(
        told.state,
        OrchestratorState::Paused,
        "after homing the E-stop interlock is cleared (back to Paused)"
    );
}

#[test]
fn run_loop_manual_gripper_runs_while_paused() {
    // A manual toggle must reach the robot even from the default paused
    // state (release a part held after a failed pick / E-stop).
    let mut robot = MockRobot::new();
    run_with(&mut robot, vec![OrchestratorMsg::SetGripper(true)]);
    assert_eq!(
        *robot.command_log(),
        vec![MockRobotCommand::Gripper(true)],
        "manual gripper toggle must run while paused"
    );
}

#[test]
fn run_loop_shutdown_parks_after_the_pick_completes() {
    // Shutdown must arrive *after* the pick has run, otherwise it would
    // (correctly) preempt it and there would be no recorded position to park
    // from. So we let the pick finish first.
    let mut robot = MockRobot::new();
    let mut orch = test_orchestrator();
    let mut told = Told { state: orch.state(), error: None };
    let left = run_loop(
        &mut orch,
        &mut robot,
        vec![
            OrchestratorMsg::Resume,
            OrchestratorMsg::Pick(object_at(50.0, 0.0)),
        ],
        &mut told,
    );
    assert!(!left);
    assert_eq!(robot.command_log().len(), 6, "whole pick executed");
    assert!(run_loop(&mut orch, &mut robot, vec![OrchestratorMsg::Shutdown], &mut told));

    let cmds = robot.command_log();
    // Park raises straight up to z_travel above the last position (DROP),
    // after releasing the gripper.
    let park_raise = at(150.0, 0.0, -50.0);
    assert_eq!(
        cmds.last().cloned(),
        Some(MockRobotCommand::MoveTo(park_raise)),
        "shutdown must raise to z_travel above the last position"
    );
    assert_eq!(
        cmds[cmds.len() - 2],
        MockRobotCommand::Gripper(false),
        "shutdown releases the gripper before raising"
    );
}

#[test]
fn shutdown_goes_before_everything_else() {
    let mut robot = MockRobot::new();
    run_with(
        &mut robot,
        vec![
            OrchestratorMsg::Resume,
            OrchestratorMsg::Pick(object_at(50.0, 0.0)),
            OrchestratorMsg::Home,
            OrchestratorMsg::SetGripper(true),
            OrchestratorMsg::Shutdown,
        ],
    );
    assert_eq!(*robot.command_log(), vec![MockRobotCommand::Gripper(false)]);
}

#[test]
fn homing_goes_before_the_gripper_and_the_queue() {
    let mut robot = MockRobot::new();
    run_with(
        &mut robot,
        vec![
            OrchestratorMsg::Resume,
            OrchestratorMsg::Pick(object_at(50.0, 0.0)),
            OrchestratorMsg::SetGripper(true),
            OrchestratorMsg::Home,
        ],
    );
    let cmds = robot.command_log();
    assert_eq!(cmds[0], MockRobotCommand::Home);
    assert_eq!(cmds[1], MockRobotCommand::Gripper(true));
    assert_eq!(cmds[2], MockRobotCommand::MoveTo(travel_50()));
    assert_eq!(cmds.len(), 8);
}

#[test]
fn after_a_failure_nothing_runs_until_resumed() {
    let mut robot = FailingRobot { log: Vec::new() };
    let mut orch = test_orchestrator();
    let mut told = Told { state: orch.state(), error: None };
    run_loop(
        &mut orch,
        &mut robot,
        vec![OrchestratorMsg::Resume, OrchestratorMsg::Pick(object_at(50.0, 0.0))],
        &mut told,
    );
    assert_eq!(orch.state(), OrchestratorState::Paused);
    let mut robot = MockRobot::new();
    run_loop(
        &mut orch,
        &mut robot,
        vec![OrchestratorMsg::Pick(object_at(50.0, 0.0))],
        &mut told,
    );
    assert!(robot.command_log().is_empty());
    run_loop(
        &mut orch,
        &mut robot,
        vec![OrchestratorMsg::Resume, OrchestratorMsg::Pick(object_at(50.0, 0.0))],
        &mut told,
    );
    assert_eq!(robot.command_log().len(), 6);
}

#[test]
fn no_command_leaves_the_workspace_whatever_is_asked() {
    let cfg = test_config();
    cfg.validate().unwrap();
    let mut orch = Orchestrator::new(&cfg);
    let limits = WorkspaceLimits::default();
    let mut state = 0x0bad_cafe_1234_5678u64;
    let mut next = || {
        state ^= state << 13;
        state ^= state >> 7;
        state ^= state << 17;
        state
    };
    let mut moves = 0;
    for _ in 0..3000 {
        let msg = match next() % 10 {
            0 => OrchestratorMsg::Pause,
            1 => OrchestratorMsg::EStop,
            2 => OrchestratorMsg::Home,
            3 => OrchestratorMsg::SetGripper(next() % 2 == 0),
            4 | 5 => OrchestratorMsg::Resume,
            _ => OrchestratorMsg::Pick(object_at(
                (next() % 500) as f32 - 250.0,
                (next() % 500) as f32 - 250.0,
            )),
        };
        orch.handle_message(msg, SEEN);
        for _ in 0..(next() % 5) {
            match orch.next_action(SEEN) {
                Action::Execute(cmd) => {
                    if let RobotCommand::MoveTo(p) = cmd {
                        assert!(limits.contains(p), "{p:?}");
                        moves += 1;
                    }
                    let ok = next() % 7 != 0;
                    orch.finish_command(
                        cmd,
                        if ok { Ok(()) } else { Err("x".to_string()) },
                        false,
                    );
                }
                Action::Home => {
                    orch.finish_home(if next() % 2 == 0 { Ok(()) } else { Err("x".to_string()) });
                }
                _ => {}
            }
            for cmd in orch.park_for_shutdown() {
                if let RobotCommand::MoveTo(p) = cmd {
                    assert!(limits.contains(p), "{p:?}");
                }
            }
        }
    }
    assert!(moves > 100, "only {moves} moves");
}

//! The robot, the conveyor and the camera.
use deltax2sort::float::Float32;
use deltax2sort::hardware::camera::{Adopted, FourccError};
use deltax2sort::hardware::mock::MockConveyorCommand;
use deltax2sort::hardware::serial::{FeedbackWait, Handshake, ReadEvent, Wait, WaitError};
use deltax2sort::hardware::{
    parse_fourcc, DeltaX2, MockCamera, MockConveyor, MockRobot, MockRobotCommand, OpencvCamera,
    Position, RobotError, SerialConveyor, WorkspaceLimits,
};
use deltax2sort::orchestrator::RobotCommand;
use deltax2sort::vision::Rect;

fn f(x: f32) -> Float32 {
    Float32 { bits: x.to_bits() }
}

fn at(x: f32, y: f32, z: f32) -> Position {
    Position { x: f(x), y: f(y), z: f(z) }
}

#[test]
fn workspace_limits_contains() {
    let l = WorkspaceLimits::default();
    assert!(l.contains(at(0.0, 0.0, -100.0)));
    assert!(!l.contains(at(0.0, 0.0, 20.0))); // above Z0 (top) — physically impossible
    assert!(!l.contains(at(200.0, 0.0, -100.0)));
}

#[test]
fn workspace_limits_take_in_their_edges_and_no_nan() {
    let l = WorkspaceLimits::default();
    assert!(l.contains(at(160.0, -160.0, 0.0)));
    assert!(l.contains(at(-160.0, 160.0, -200.0)));
    assert!(!l.contains(at(160.00002, 0.0, -100.0)));
    assert!(!l.contains(at(0.0, -160.00002, -100.0)));
    assert!(!l.contains(at(f32::NAN, 0.0, -100.0)));
    assert!(!l.contains(at(0.0, 0.0, f32::NEG_INFINITY)));
}

#[test]
fn mock_robot_rejects_out_of_bounds_move() {
    let mut robot = MockRobot::new();
    let result = robot.move_to(at(500.0, 0.0, -50.0));
    assert!(result.is_err());
}

#[test]
fn mock_robot_records_commands_and_skips_rejected_move() {
    let mut robot = MockRobot::new();
    let good = at(10.0, 10.0, -50.0);
    robot.connect().unwrap();
    robot.move_to(good).unwrap();
    robot.set_gripper(true).unwrap();
    // Out-of-bounds: errors and must NOT appear in the log.
    assert!(robot.move_to(at(9999.0, 0.0, -50.0)).is_err());
    robot.set_gripper(false).unwrap();

    assert_eq!(
        *robot.command_log(),
        vec![
            MockRobotCommand::Connect,
            MockRobotCommand::MoveTo(good),
            MockRobotCommand::Gripper(true),
            MockRobotCommand::Gripper(false)
        ],
        "rejected move commands the robot nothing"
    );
}

#[test]
fn mock_robot_follows_its_commands() {
    let mut robot = MockRobot::new();
    assert!(!robot.connected);
    robot.connect().unwrap();
    assert!(robot.connected);
    robot.execute(RobotCommand::MoveTo(at(1.0, 2.0, -3.0))).unwrap();
    assert_eq!(robot.current_pos, at(1.0, 2.0, -3.0));
    robot.execute(RobotCommand::Wait(150)).unwrap();
    robot.execute(RobotCommand::Gripper(true)).unwrap();
    assert!(robot.execute(RobotCommand::MoveTo(at(0.0, 0.0, 1.0))).is_err());
    assert_eq!(robot.current_pos, at(1.0, 2.0, -3.0));
    robot.execute(RobotCommand::Home).unwrap();
    assert_eq!(robot.current_pos, at(0.0, 0.0, 0.0));
    robot.stop().unwrap();
    assert_eq!(
        *robot.command_log(),
        vec![
            MockRobotCommand::Connect,
            MockRobotCommand::MoveTo(at(1.0, 2.0, -3.0)),
            MockRobotCommand::Gripper(true),
            MockRobotCommand::Home,
            MockRobotCommand::Stop
        ]
    );
}

#[test]
fn mock_robot_keeps_to_its_own_limits() {
    let mut limits = WorkspaceLimits::default();
    limits.x_max = f(10.0);
    let mut robot = MockRobot::with_limits(limits);
    assert!(robot.move_to(at(10.0, 0.0, 0.0)).is_ok());
    match robot.move_to(at(11.0, 0.0, 0.0)) {
        Err(RobotError::OutsideWorkspace { target, limits }) => {
            assert_eq!(target, at(11.0, 0.0, 0.0));
            assert_eq!(limits.x_max, f(10.0));
        }
        other => panic!("unexpected {other:?}"),
    }
}

#[test]
fn mock_conveyor_records_start_and_stop() {
    let mut c = MockConveyor::new();
    c.connect();
    c.start(800);
    assert!(c.running);
    c.stop();
    assert!(!c.running);
    assert_eq!(
        *c.command_log(),
        vec![
            MockConveyorCommand::Connect,
            MockConveyorCommand::Start(800),
            MockConveyorCommand::Stop
        ]
    );
}

#[test]
fn fourcc_must_be_exactly_four_ascii_bytes() {
    // Valid: exactly four ASCII characters.
    assert_eq!(parse_fourcc("MJPG".to_string()).unwrap(), *b"MJPG");
    // Too short / too long: rejected, never a panicking index.
    assert!(parse_fourcc("MJP".to_string()).is_err());
    assert!(parse_fourcc("MJPGX".to_string()).is_err());
    assert!(parse_fourcc(String::new()).is_err());
    // Four chars but non-ASCII (2-byte 'é' pushes the byte length past 4).
    assert!(parse_fourcc("éJPG".to_string()).is_err());
}

#[test]
fn fourcc_errors_tell_length_from_alphabet() {
    assert_eq!(parse_fourcc("éJPG".to_string()), Err(FourccError::NotFourBytes));
    // Four bytes, three characters.
    assert_eq!(parse_fourcc("éJP".to_string()), Err(FourccError::NotAscii));
}

#[test]
fn camera_new_validates_fourcc_and_never_panics_on_connect_input() {
    // The driver stores a validated [u8;4], so a bad FOURCC fails at
    // construction instead of panicking inside connect().
    assert!(OpencvCamera::new(0, 640, 480, 30, Some("bad".to_string())).is_err());
    assert!(OpencvCamera::new(0, 640, 480, 30, Some("MJPG".to_string())).is_ok());
    // No FOURCC configured is fine (device default).
    assert!(OpencvCamera::new(0, 640, 480, 30, None).is_ok());
}

#[test]
fn camera_adopts_the_mode_in_effect() {
    let mut camera = OpencvCamera::new(2, 1280, 720, 30, None).ok().unwrap();
    assert_eq!(camera.adopt(1280, 720, 30), Adopted { resolution: false, fps: false });
    assert_eq!(camera.adopt(0, 5, 0), Adopted { resolution: false, fps: false });
    assert_eq!(camera.resolution(), (1280, 720));
    assert_eq!(camera.adopt(640, 480, 25), Adopted { resolution: true, fps: true });
    assert_eq!(camera.resolution(), (640, 480));
    assert_eq!(camera.fps, 25);
    assert_eq!(camera.adopt(640, 400, 25), Adopted { resolution: true, fps: false });
    assert_eq!(camera.resolution(), (640, 400));
}

#[test]
fn mock_camera_shows_the_part_for_most_of_each_cycle() {
    let mut camera = MockCamera::new(1280, 720, 30, true);
    for n in 0..90u64 {
        let frame = camera.get_frame().unwrap();
        assert_eq!((frame.width, frame.height), (1280, 720));
        assert_eq!((frame.background, frame.blob_value), (200, 0));
        assert_eq!(frame.delay_ms, 33);
        let expected = (n % 30 < 22).then(|| Rect::new(620, 340, 40, 40));
        assert_eq!(frame.blob, expected, "frame {n}");
    }
    assert_eq!(camera.frame, 90);
    // Too slow to show it at all, and a rate of zero is taken as one.
    let mut slow = MockCamera::new(100, 100, 5, false);
    let mut none = MockCamera::new(100, 100, 0, false);
    for _ in 0..20 {
        let frame = slow.get_frame().unwrap();
        assert_eq!((frame.background, frame.blob_value, frame.blob), (0, 255, None));
        assert_eq!(frame.delay_ms, 200);
        assert_eq!(none.get_frame().unwrap().delay_ms, 1000);
    }
    let mut huge = MockCamera::new(u32::MAX, 100, 30, false);
    assert!(huge.get_frame().is_none());
    assert_eq!(huge.frame, 0);
}

// --- Waiting for the robot ---

fn wait(id: &str) -> FeedbackWait {
    FeedbackWait::new(id.to_string(), 0, 1_000_000_000)
}

fn line(text: &str) -> ReadEvent {
    ReadEvent::Line(text.to_string())
}

/// Feeds the reads one by one; what comes of them by the last one.
fn feed(w: &mut FeedbackWait, reads: Vec<ReadEvent>) -> Wait {
    let mut last = Wait::Continue;
    for event in reads {
        last = w.step(event, 1, false);
        if !matches!(last, Wait::Continue) {
            break;
        }
    }
    last
}

fn failure(w: Wait, command: &str) -> String {
    match w {
        Wait::Failed(e) => e.message(command, "30ms"),
        other => panic!("expected a failure, got {other:?}"),
    }
}

#[test]
fn feedback_echo_completes_command_and_frames_the_id() {
    let mut robot = DeltaX2::new("/dev/null", 115200, WorkspaceLimits::default(), 15000, false);
    robot.attached();
    let request = robot.write_gcode("G01 X1 Y2 Z-3 F15000").unwrap();
    assert_eq!(request.feedback_id, "sync_1");
    let mut w = wait("sync_1");
    assert!(matches!(feed(&mut w, vec![line("sync_1\n")]), Wait::Completed));
    // The FEEDBACK id is appended to the command, newline-terminated.
    assert_eq!(request.frame.as_bytes(), b"G01 X1 Y2 Z-3 F15000 FEEDBACK:sync_1\n");
}

#[test]
fn ok_ack_is_ignored_and_feedback_still_completes() {
    // 'ok' acknowledges receipt only; completion is the FEEDBACK echo.
    let mut w = wait("sync_1");
    assert!(matches!(
        feed(&mut w, vec![line("ok\n"), line("sync_1\n")]),
        Wait::Completed
    ));
}

#[test]
fn blank_and_unexpected_lines_are_skipped_until_feedback() {
    let mut w = wait("sync_2");
    assert!(matches!(
        feed(
            &mut w,
            vec![line("\n"), line("Delta X2 booted\n"), line("OK\n"), line("sync_2\n")]
        ),
        Wait::Completed
    ));
}

#[test]
fn error_line_fails_the_command() {
    let mut w = wait("sync_1");
    let err = failure(feed(&mut w, vec![line("error: bad axis\n")]), "G01 X1");
    assert!(err.contains("reported error"), "got: {err}");
    assert_eq!(err, "robot reported error for 'G01 X1': error: bad axis");
}

#[test]
fn error_matching_is_case_insensitive() {
    let mut w = wait("sync_1");
    assert!(matches!(
        feed(&mut w, vec![line("ERROR limit hit\n")]),
        Wait::Failed(WaitError::Reported(_))
    ));
}

#[test]
fn eof_before_feedback_fails_fast() {
    // Device unplugged mid-wait. Must not spin forever.
    let mut w = wait("sync_1");
    let err = failure(feed(&mut w, vec![ReadEvent::Closed]), "G28");
    assert!(err.contains("closed"), "got: {err}");
    assert_eq!(err, "serial port closed while waiting for 'G28'");
}

#[test]
fn timeout_without_feedback_fails_at_the_deadline() {
    // The robot never echoes: reads keep timing out until the overall
    // deadline elapses.
    let mut w = FeedbackWait::new("sync_1".to_string(), 100, 30_000_000);
    let quiet = || ReadEvent::TimedOut(String::new());
    assert!(matches!(w.step(quiet(), 30_000_099, false), Wait::Continue));
    let err = failure(w.step(quiet(), 30_000_100, false), "G28");
    assert!(err.contains("timed out"), "got: {err}");
    assert_eq!(err, "timed out after 30ms waiting for 'G28' to complete");
}

#[test]
fn feedback_split_across_a_read_timeout_still_completes() {
    // An echo that straddles a per-read timeout ("sync" ... TIMEOUT ...
    // "_1\n") must complete, not be corrupted into a false failure.
    let mut w = wait("sync_1");
    assert!(
        matches!(
            feed(&mut w, vec![ReadEvent::TimedOut("sync".to_string()), line("_1\n")]),
            Wait::Completed
        ),
        "echo split across a read timeout must still be recognised"
    );
}

#[test]
fn non_timeout_read_error_fails_the_command() {
    let mut w = wait("sync_1");
    let err = failure(
        feed(&mut w, vec![ReadEvent::Failed("scripted device fault".to_string())]),
        "G28",
    );
    assert!(err.contains("reading feedback"), "got: {err}");
    assert_eq!(err, "reading feedback for 'G28': scripted device fault");
}

#[test]
fn an_echo_counts_even_at_the_deadline() {
    let mut w = wait("sync_1");
    assert!(matches!(
        w.step(line("  sync_1 \r\n"), u64::MAX, false),
        Wait::Completed
    ));
    let mut w = wait("sync_1");
    assert!(matches!(
        w.step(line("sync_10\n"), u64::MAX, false),
        Wait::Failed(WaitError::DeadlinePassed)
    ));
}

#[test]
fn the_emergency_stop_aborts_a_wait() {
    let mut w = wait("sync_1");
    let err = failure(w.step(ReadEvent::TimedOut(String::new()), 1, true), "G28");
    assert_eq!(err, "emergency stop while waiting for 'G28'");
    // A command that completed in the same read has completed.
    let mut w = wait("sync_1");
    assert!(matches!(w.step(line("sync_1\n"), 1, true), Wait::Completed));
}

#[test]
fn handshake_skips_the_boot_banner() {
    let mut h = Handshake::new(0);
    assert!(matches!(h.step(line("Delta X2 v1.0\n"), 1), Wait::Continue));
    assert!(matches!(h.step(line("\n"), 2), Wait::Continue));
    assert!(matches!(
        h.step(ReadEvent::TimedOut("Yes".to_string()), 3),
        Wait::Continue
    ));
    assert!(matches!(h.step(line("Delta\r\n"), 4), Wait::Completed));
}

#[test]
fn handshake_gives_up() {
    let mut h = Handshake::new(7);
    assert!(matches!(h.step(line("no\n"), 5_000_000_006), Wait::Continue));
    assert!(matches!(
        h.step(line("no\n"), 5_000_000_007),
        Wait::Failed(WaitError::DeadlinePassed)
    ));
    let mut h = Handshake::new(0);
    assert!(matches!(
        h.step(ReadEvent::Closed, 1),
        Wait::Failed(WaitError::Closed)
    ));
    let mut h = Handshake::new(0);
    assert!(matches!(
        h.step(ReadEvent::Failed("fault".to_string()), 1),
        Wait::Failed(WaitError::Read(_))
    ));
}

// --- The Delta X2 ---

/// The two texts that a refusal is told by.
fn refusal(e: RobotError) -> &'static str {
    match e {
        RobotError::OutsideWorkspace { .. } => "outside workspace",
        RobotError::NotConnected => "not connected",
    }
}

#[test]
fn deltax2_validates_bounds_before_port_access() {
    // No hardware: bounds are checked before the connection state.
    let mut robot = DeltaX2::new("/dev/null", 115200, WorkspaceLimits::default(), 15000, false);
    let msg = refusal(robot.move_to(at(0.0, 0.0, 20.0)).unwrap_err());
    assert!(msg.contains("outside workspace"), "got: {msg}");

    // In-bounds move on a disconnected robot fails with 'not connected'.
    let msg = refusal(robot.move_to(at(0.0, 0.0, -50.0)).unwrap_err());
    assert!(msg.contains("not connected"), "got: {msg}");
    assert_eq!(robot.cmd_seq, 0);
}

fn connected(release: bool) -> DeltaX2 {
    let mut robot = DeltaX2::new("/dev/null", 115200, WorkspaceLimits::default(), 15000, release);
    robot.attached();
    robot
}

#[test]
fn moves_become_gcode_with_two_decimals() {
    let mut robot = connected(false);
    let request = robot.move_to(at(1.0, -2.345, -180.0)).unwrap();
    assert_eq!(
        request.command,
        format!("G01 X{:.2} Y{:.2} Z{:.2} F{}", 1.0f32, -2.345f32, -180.0f32, 15000)
    );
    assert_eq!(
        request.frame,
        format!("{} FEEDBACK:{}\n", request.command, "sync_1")
    );
    assert!(robot.move_to(at(0.0, 0.0, 0.5)).is_err());
    let request = robot.move_to(at(-0.001, 0.125, -0.375)).unwrap();
    assert_eq!(request.command, "G01 X-0.00 Y0.12 Z-0.38 F15000");
    assert_eq!(request.feedback_id, "sync_2");
}

#[test]
fn rounding_for_the_wire_stays_in_the_envelope() {
    let mut robot = connected(false);
    let request = robot.move_to(at(159.999, -159.9999, -199.9951)).unwrap();
    assert_eq!(request.command, "G01 X160.00 Y-160.00 Z-200.00 F15000");
    let request = robot.move_to(at(160.0, -160.0, -0.004)).unwrap();
    assert_eq!(request.command, "G01 X160.00 Y-160.00 Z-0.00 F15000");
    assert!(robot.move_to(at(160.001, 0.0, -1.0)).is_err());
    assert!(robot.move_to(at(0.0, 0.0, 0.004)).is_err());
}

#[test]
fn gripper_and_homing_commands() {
    let mut robot = connected(false);
    assert_eq!(robot.connect().unwrap().command, "G90");
    assert_eq!(robot.set_gripper(true).unwrap().command, "M03");
    assert_eq!(robot.set_gripper(false).unwrap().command, "M05");
    let first = robot.home(0).unwrap().unwrap();
    assert_eq!((first.command.as_str(), first.clears_estop), ("G28", true));
    let second = robot.home(1).unwrap().unwrap();
    assert_eq!((second.command.as_str(), second.clears_estop), ("G90", false));
    assert!(robot.home(2).unwrap().is_none());
    assert_eq!(robot.cmd_seq, 5);
    assert_eq!(robot.write_gcode("  M114 \n").unwrap().frame, "M114 FEEDBACK:sync_6\n");
}

#[test]
fn only_homing_is_sent_while_stopped() {
    let mut robot = connected(false);
    let mut requests = vec![
        robot.set_gripper(false).unwrap(),
        robot.move_to(at(0.0, 0.0, -100.0)).unwrap(),
        robot.write_gcode("M114").unwrap(),
        robot.home(1).unwrap().unwrap(),
    ];
    assert!(requests.iter().all(|r| r.may_send(false) && !r.may_send(true)));
    let homing = robot.home(0).unwrap().unwrap();
    assert!(homing.may_send(false) && homing.may_send(true));
    requests.push(homing);
    // No two of them share an id.
    for (i, a) in requests.iter().enumerate() {
        assert!(requests[..i].iter().all(|b| b.feedback_id != a.feedback_id));
    }
}

#[test]
fn halts_are_available_once_connected() {
    let idle = DeltaX2::new("/dev/null", 115200, WorkspaceLimits::default(), 15000, true);
    assert!(idle.estop_handle().is_none());
    assert!(idle.stop().is_err());
    let halt = connected(false).estop_handle().unwrap();
    assert_eq!((halt.command, halt.label), ("M112\n", "robot (M112)"));
    let halt = connected(true).estop_handle().unwrap();
    assert_eq!((halt.command, halt.label), ("M05\nM112\n", "robot (M05+M112)"));
    assert_eq!(connected(true).stop().unwrap(), "M112\n");
}

#[test]
fn conveyor_commands() {
    let mut conveyor = SerialConveyor::new("/dev/ttyUSB1", 115200);
    assert!(conveyor.start(1000).is_err());
    assert!(conveyor.stop().is_err());
    assert!(conveyor.estop_handle().is_none());
    conveyor.attached();
    assert_eq!(conveyor.start(1000).unwrap(), "M3 S1000\n");
    assert_eq!(conveyor.start(-5).unwrap(), "M3 S-5\n");
    assert_eq!(conveyor.start(i32::MIN).unwrap(), "M3 S-2147483648\n");
    assert_eq!(conveyor.stop().unwrap(), "M5\n");
    assert_eq!(conveyor.write_cmd(" M5 ").unwrap(), "M5\n");
    let halt = conveyor.estop_handle().unwrap();
    assert_eq!((halt.command, halt.label), ("M5\n", "conveyor (M5)"));
}

//! What the operator panel shows and when its buttons act. It shows confirmed
//! state, never what a button hoped for.
use crate::app_config::LoggingConfig;
use crate::orchestrator::{OrchestratorMsg, OrchestratorState};
use vstd::prelude::*;

verus! {

/// No frame for this long (milliseconds) and the feed is shown as lost.
pub const FEED_TIMEOUT_MS: u64 = 1000;

/// How long the tasks are waited for when the program ends (milliseconds).
pub const SHUTDOWN_TIMEOUT_MS: u64 = 20_000;

/// What the panel shows of the orchestrator.
#[derive(Clone, Copy, Debug)]
pub struct RobotView {
    /// Start is locked until the robot is homed.
    pub estopped: bool,
    pub orchestrator_running: bool,
    /// The belt is shown as stopped.
    pub belt_stopped: bool,
    pub status: &'static str,
}

pub open spec fn status_text(s: OrchestratorState) -> Seq<char> {
    match s {
        OrchestratorState::Paused => "Ready (paused)"@,
        OrchestratorState::Running => "Sorting"@,
        OrchestratorState::EStopped => "E-STOP — HOME REQUIRED"@,
    }
}

/// What a confirmed state looks like.
pub fn robot_view(s: OrchestratorState) -> (r: RobotView)
    ensures
        r.estopped == (s == OrchestratorState::EStopped),
        r.orchestrator_running == (s == OrchestratorState::Running),
        r.belt_stopped == (s == OrchestratorState::EStopped),
        r.status@ == status_text(s),
{
    match s {
        OrchestratorState::Paused => RobotView {
            estopped: false,
            orchestrator_running: false,
            belt_stopped: false,
            status: "Ready (paused)",
        },
        OrchestratorState::Running => RobotView {
            estopped: false,
            orchestrator_running: true,
            belt_stopped: false,
            status: "Sorting",
        },
        OrchestratorState::EStopped => RobotView {
            estopped: true,
            orchestrator_running: false,
            belt_stopped: true,
            status: "E-STOP — HOME REQUIRED",
        },
    }
}

/// What a tap on Start/Pause asks for: to start where the belt is not
/// running, else to pause; nothing while a conveyor command is in flight.
pub fn start_tapped(command_pending: bool, belt_running: bool) -> (r: Option<bool>)
    ensures
        r == if command_pending {
            None
        } else {
            Some(!belt_running)
        },
{
    if command_pending {
        None
    } else {
        Some(!belt_running)
    }
}

/// What the orchestrator is told with it.
pub fn start_message(starting: bool) -> (r: OrchestratorMsg)
    ensures
        r == if starting {
            OrchestratorMsg::Resume
        } else {
            OrchestratorMsg::Pause
        },
{
    if starting {
        OrchestratorMsg::Resume
    } else {
        OrchestratorMsg::Pause
    }
}

/// What the panel shows of the conveyor once a command has come to its end.
#[derive(Clone, Copy, Debug)]
pub struct BeltView {
    /// Whether the belt is shown as running; `None` leaves it as it was.
    pub running: Option<bool>,
    pub status: &'static str,
    /// A failure for the operator.
    pub error: Option<&'static str>,
    /// Whether the belt really moves, for the vision loop.
    pub moves: bool,
}

/// The end of a Start/Pause command. After a failure the belt is in an
/// unknown state, so it is shown as not running and Stop stays within reach.
pub fn start_finished(starting: bool, succeeded: bool) -> (r: BeltView)
    ensures
        r.moves == (starting && succeeded),
        r.running == Some(starting && succeeded),
        r.status@ == if !succeeded {
            "ERROR"@
        } else if starting {
            "Running"@
        } else {
            "Stopped"@
        },
        match r.error {
            Some(text) => !succeeded && text@ == if starting {
                "Conveyor start failed"@
            } else {
                "Conveyor stop failed"@
            },
            None => succeeded,
        },
{
    if succeeded {
        BeltView {
            running: Some(starting),
            status: if starting {
                "Running"
            } else {
                "Stopped"
            },
            error: None,
            moves: starting,
        }
    } else {
        BeltView {
            running: Some(false),
            status: "ERROR",
            error: Some(
                if starting {
                    "Conveyor start failed"
                } else {
                    "Conveyor stop failed"
                },
            ),
            moves: false,
        }
    }
}

/// The end of a Stop command. After a failure the belt is shown as it was, so
/// it can be forced down on a retry.
pub fn stop_finished(succeeded: bool) -> (r: BeltView)
    ensures
        !r.moves,
        r.running == if succeeded {
            Some(false)
        } else {
            None
        },
        r.status@ == if succeeded {
            "Stopped"@
        } else {
            "ERROR"@
        },
        match r.error {
            Some(text) => !succeeded && text@ == "Conveyor stop failed"@,
            None => succeeded,
        },
{
    if succeeded {
        BeltView { running: Some(false), status: "Stopped", error: None, moves: false }
    } else {
        BeltView {
            running: None,
            status: "ERROR",
            error: Some("Conveyor stop failed"),
            moves: false,
        }
    }
}

/// How many rotated log files are kept; `None` keeps them all.
pub fn kept_log_files(cfg: &LoggingConfig) -> (r: Option<usize>)
    ensures
        r == if cfg.keep_days == 0 {
            None
        } else {
            Some(cfg.keep_days as usize)
        },
{
    if cfg.keep_days == 0 {
        None
    } else {
        Some(cfg.keep_days as usize)
    }
}

} // verus!

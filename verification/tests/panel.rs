//! What the operator sees.
use deltax2sort::app_config::LoggingConfig;
use deltax2sort::orchestrator::{OrchestratorMsg, OrchestratorState};
use deltax2sort::panel::{
    kept_log_files, robot_view, start_finished, start_message, start_tapped, stop_finished,
};

#[test]
fn states_have_their_look() {
    let view = robot_view(OrchestratorState::Paused);
    assert!(!view.estopped && !view.orchestrator_running && !view.belt_stopped);
    assert_eq!(view.status, "Ready (paused)");
    let view = robot_view(OrchestratorState::Running);
    assert!(!view.estopped && view.orchestrator_running);
    assert_eq!(view.status, "Sorting");
    let view = robot_view(OrchestratorState::EStopped);
    assert!(view.estopped && !view.orchestrator_running && view.belt_stopped);
    assert_eq!(view.status, "E-STOP — HOME REQUIRED");
}

#[test]
fn a_tap_toggles_unless_a_command_is_in_flight() {
    assert_eq!(start_tapped(true, false), None);
    assert_eq!(start_tapped(false, false), Some(true));
    assert_eq!(start_tapped(false, true), Some(false));
    assert!(matches!(start_message(true), OrchestratorMsg::Resume));
    assert!(matches!(start_message(false), OrchestratorMsg::Pause));
}

#[test]
fn belt_commands_end_as_they_went() {
    let v = start_finished(true, true);
    assert_eq!((v.running, v.status, v.error, v.moves), (Some(true), "Running", None, true));
    let v = start_finished(false, true);
    assert_eq!((v.running, v.status, v.error, v.moves), (Some(false), "Stopped", None, false));
    let v = start_finished(true, false);
    assert_eq!(
        (v.running, v.status, v.error, v.moves),
        (Some(false), "ERROR", Some("Conveyor start failed"), false)
    );
    let v = start_finished(false, false);
    assert_eq!(
        (v.running, v.status, v.error, v.moves),
        (Some(false), "ERROR", Some("Conveyor stop failed"), false)
    );
    let v = stop_finished(true);
    assert_eq!((v.running, v.status, v.error, v.moves), (Some(false), "Stopped", None, false));
    let v = stop_finished(false);
    assert_eq!(
        (v.running, v.status, v.error, v.moves),
        (None, "ERROR", Some("Conveyor stop failed"), false)
    );
}

#[test]
fn zero_days_keep_every_log_file() {
    let mut cfg = LoggingConfig::default();
    assert_eq!(kept_log_files(&cfg), Some(7));
    cfg.keep_days = 0;
    assert_eq!(kept_log_files(&cfg), None);
}
